//! An admin-fed price feed with the SEP-40 reading interface, for
//! development: it serves the last price set, per asset symbol or by
//! default, whatever time is asked for.
use vstd::prelude::*;
use crate::prediction_types::{OracleAsset, PriceData};
use crate::table::{
    distinct, lemma_distinct_push, lemma_table_absent, lemma_table_get, lemma_table_push,
    lemma_table_update, table,
};

verus! {

/// Decimal places of every price served (as the production feed uses).
pub const DECIMALS: u32 = 14;

/// The last price set for one asset symbol and when it was set.
#[derive(Clone, Debug)]
pub struct AssetQuote {
    pub asset: String,
    pub price: i128,
    pub timestamp: u64,
}

/// Keys of the per-asset quotes.
pub open spec fn quote_keys(s: Seq<AssetQuote>) -> Seq<Seq<char>> {
    s.map_values(|q: AssetQuote| q.asset@)
}

/// Prices and times of the per-asset quotes.
pub open spec fn quote_vals(s: Seq<AssetQuote>) -> Seq<(i128, u64)> {
    s.map_values(|q: AssetQuote| (q.price, q.timestamp))
}

/// The feed's storage as a value.
pub struct OracleState {
    pub admin: Option<String>,
    /// The default price and when it was set.
    pub price: Option<i128>,
    pub timestamp: Option<u64>,
    /// Per-asset prices and when they were set.
    pub quotes: Map<Seq<char>, (i128, u64)>,
}

impl OracleState {
    /// What the feed answers for `asset`: the asset's own price if one was
    /// set, else the default price (with its time, or 0), else nothing.
    pub open spec fn reading(self, asset: OracleAsset) -> Option<PriceData> {
        let own = match asset {
            OracleAsset::Other(sym) => self.quotes.contains_key(sym@),
            OracleAsset::Stellar(_) => false,
        };
        if own {
            let q = self.quotes[asset->Other_0@];
            Some(PriceData { price: q.0, timestamp: q.1 })
        } else {
            match self.price {
                None => None,
                Some(p) => Some(
                    PriceData {
                        price: p,
                        timestamp: match self.timestamp {
                            Some(t) => t,
                            None => 0,
                        },
                    },
                ),
            }
        }
    }
}

/// The development price feed.
pub struct TestOracle {
    admin: Option<String>,
    price: Option<i128>,
    timestamp: Option<u64>,
    quotes: Vec<AssetQuote>,
}

impl View for TestOracle {
    type V = OracleState;

    closed spec fn view(&self) -> OracleState {
        OracleState {
            admin: self.admin,
            price: self.price,
            timestamp: self.timestamp,
            quotes: table(quote_keys(self.quotes@), quote_vals(self.quotes@)),
        }
    }
}

impl TestOracle {
    /// The invariant: one quote per asset symbol.
    pub closed spec fn inv(&self) -> bool {
        distinct(quote_keys(self.quotes@))
    }

    /// A deployed feed with nothing set.
    pub fn new() -> (r: TestOracle)
        ensures
            r.inv(),
            r@.admin is None,
            r@.price is None,
            r@.timestamp is None,
            r@.quotes == Map::<Seq<char>, (i128, u64)>::empty(),
    {
        let r = TestOracle { admin: None, price: None, timestamp: None, quotes: Vec::new() };
        proof {
            assert(quote_keys(r.quotes@).len() == 0);
            assert(r@.quotes =~= Map::<Seq<char>, (i128, u64)>::empty());
        }
        r
    }

    /// Records the admin and the default price, stamped with `now`.
    pub fn initialize(&mut self, admin: String, initial_price: i128, now: u64)
        requires
            old(self).inv(),
        ensures
            final(self).inv(),
            final(self)@ == (OracleState {
                admin: Some(admin),
                price: Some(initial_price),
                timestamp: Some(now),
                ..old(self)@
            }),
    {
        self.admin = Some(admin);
        self.price = Some(initial_price);
        self.timestamp = Some(now);
    }

    /// Sets the default price, stamped with `now`.
    pub fn update_price(&mut self, price: i128, now: u64)
        requires
            old(self).inv(),
        ensures
            final(self).inv(),
            final(self)@ == (OracleState { price: Some(price), timestamp: Some(now), ..old(self)@ }),
    {
        self.price = Some(price);
        self.timestamp = Some(now);
    }

    /// Index of the quote for `asset`.
    fn find_quote(&self, asset: &String) -> (r: Option<usize>)
        requires
            self.inv(),
        ensures
            match r {
                Some(i) => i < self.quotes@.len() && quote_keys(self.quotes@)[i as int] == asset@,
                None => forall|j: int|
                    0 <= j < self.quotes@.len() ==> quote_keys(self.quotes@)[j] != asset@,
            },
    {
        let mut i: usize = 0;
        while i < self.quotes.len()
            invariant
                i <= self.quotes@.len(),
                forall|j: int| 0 <= j < i ==> quote_keys(self.quotes@)[j] != asset@,
            decreases self.quotes@.len() - i,
        {
            if self.quotes[i].asset == *asset {
                return Some(i);
            }
            i = i + 1;
        }
        None
    }

    /// Sets the price of one asset symbol, stamped with `now`; setting
    /// "XLM" also sets the default price.
    pub fn update_asset_price(&mut self, asset: String, price: i128, now: u64)
        requires
            old(self).inv(),
        ensures
            final(self).inv(),
            final(self)@.quotes == old(self)@.quotes.insert(asset@, (price, now)),
            final(self)@.admin == old(self)@.admin,
            asset@ == "XLM"@ ==> final(self)@.price == Some(price) && final(self)@.timestamp == Some(
                now,
            ),
            asset@ != "XLM"@ ==> final(self)@.price == old(self)@.price && final(self)@.timestamp
                == old(self)@.timestamp,
    {
        let ghost old_quotes = self.quotes@;
        let is_xlm = asset == "XLM".to_owned();
        match self.find_quote(&asset) {
            Some(i) => {
                self.quotes.set(i, AssetQuote { asset, price, timestamp: now });
                proof {
                    assert(quote_keys(self.quotes@) =~= quote_keys(old_quotes));
                    assert(quote_vals(self.quotes@) =~= quote_vals(old_quotes).update(i as int, (price, now)));
                    lemma_table_update(quote_keys(old_quotes), quote_vals(old_quotes), i as int, (price, now));
                }
            },
            None => {
                let ghost key = asset@;
                self.quotes.push(AssetQuote { asset, price, timestamp: now });
                proof {
                    assert(quote_keys(self.quotes@) =~= quote_keys(old_quotes).push(key));
                    assert(quote_vals(self.quotes@) =~= quote_vals(old_quotes).push((price, now)));
                    lemma_table_push(quote_keys(old_quotes), quote_vals(old_quotes), key, (price, now));
                    lemma_distinct_push(quote_keys(old_quotes), key);
                }
            },
        }
        if is_xlm {
            self.price = Some(price);
            self.timestamp = Some(now);
        }
    }

    /// The latest price for `asset`.
    pub fn lastprice(&self, asset: &OracleAsset) -> (r: Option<PriceData>)
        requires
            self.inv(),
        ensures
            r == self@.reading(*asset),
    {
        self.get_asset_price(asset)
    }

    /// The price for `asset` at `timestamp`: this feed serves its latest
    /// price for any time.
    pub fn price(&self, asset: &OracleAsset, timestamp: u64) -> (r: Option<PriceData>)
        requires
            self.inv(),
        ensures
            r == self@.reading(*asset),
    {
        self.get_asset_price(asset)
    }

    /// The asset's own price if set, else the default price.
    fn get_asset_price(&self, asset: &OracleAsset) -> (r: Option<PriceData>)
        requires
            self.inv(),
        ensures
            r == self@.reading(*asset),
    {
        if let OracleAsset::Other(sym) = asset {
            match self.find_quote(sym) {
                Some(i) => {
                    proof {
                        lemma_table_get(quote_keys(self.quotes@), quote_vals(self.quotes@), i as int);
                    }
                    let q = &self.quotes[i];
                    return Some(PriceData { price: q.price, timestamp: q.timestamp });
                },
                None => {
                    proof {
                        lemma_table_absent(quote_keys(self.quotes@), quote_vals(self.quotes@), sym@);
                    }
                },
            }
        }
        match self.price {
            None => None,
            Some(price) => {
                let timestamp = match self.timestamp {
                    Some(t) => t,
                    None => 0,
                };
                Some(PriceData { price, timestamp })
            },
        }
    }

    /// Decimal places of every price: 14.
    pub fn decimals(&self) -> (r: u32)
        ensures
            r == DECIMALS,
    {
        DECIMALS
    }

    /// The default price and its time, 0 for what was never set.
    pub fn get_price(&self) -> (r: (i128, u64))
        ensures
            r.0 == match self@.price {
                Some(p) => p,
                None => 0,
            },
            r.1 == match self@.timestamp {
                Some(t) => t,
                None => 0,
            },
    {
        let price = match self.price {
            Some(p) => p,
            None => 0,
        };
        let ts = match self.timestamp {
            Some(t) => t,
            None => 0,
        };
        (price, ts)
    }
}


/// The feed's storage laid out for saving between calls.
pub struct OracleParts {
    pub admin: Option<String>,
    pub price: Option<i128>,
    pub timestamp: Option<u64>,
    pub quotes: Vec<AssetQuote>,
}

impl OracleParts {
    /// The storage these parts describe.
    pub open spec fn state(&self) -> OracleState {
        OracleState {
            admin: self.admin,
            price: self.price,
            timestamp: self.timestamp,
            quotes: table(quote_keys(self.quotes@), quote_vals(self.quotes@)),
        }
    }
}

/// Whether no asset symbol is quoted twice.
fn quote_keys_distinct(v: &Vec<AssetQuote>) -> (r: bool)
    ensures
        r == distinct(quote_keys(v@)),
{
    let ghost keys = quote_keys(v@);
    let n: usize = v.len();
    let mut i: usize = 0;
    while i < n
        invariant
            keys == quote_keys(v@),
            n == v@.len(),
            i <= n,
            forall|a: int, b: int| 0 <= a < i && 0 <= b < n && a != b ==> #[trigger] keys[a] != #[trigger] keys[b],
        decreases n - i,
    {
        let mut j: usize = 0;
        while j < n
            invariant
                keys == quote_keys(v@),
                n == v@.len(),
                i < n,
                j <= n,
                forall|b: int| 0 <= b < j && b != i ==> keys[i as int] != #[trigger] keys[b],
            decreases n - j,
        {
            if j != i && v[i].asset == v[j].asset {
                proof {
                    assert(keys[i as int] == keys[j as int]);
                }
                return false;
            }
            j = j + 1;
        }
        proof {
            assert forall|a: int, b: int| 0 <= a < i + 1 && 0 <= b < n && a != b implies #[trigger] keys[a]
                != #[trigger] keys[b] by {
                if a == i {
                    assert(keys[i as int] != keys[b]);
                }
            }
        }
        i = i + 1;
    }
    true
}

impl TestOracle {
    /// Rebuilds the feed from saved parts; `None` when an asset symbol is
    /// quoted twice.
    pub fn from_parts(parts: OracleParts) -> (r: Option<TestOracle>)
        ensures
            r is Some <==> distinct(quote_keys(parts.quotes@)),
            match r {
                Some(o) => o.inv() && o@ == parts.state(),
                None => true,
            },
    {
        if !quote_keys_distinct(&parts.quotes) {
            return None;
        }
        Some(
            TestOracle {
                admin: parts.admin,
                price: parts.price,
                timestamp: parts.timestamp,
                quotes: parts.quotes,
            },
        )
    }

    /// Hands over the feed's storage for saving.
    pub fn into_parts(self) -> (r: OracleParts)
        requires
            self.inv(),
        ensures
            distinct(quote_keys(r.quotes@)),
            r.state() == self@,
    {
        OracleParts {
            admin: self.admin,
            price: self.price,
            timestamp: self.timestamp,
            quotes: self.quotes,
        }
    }
}

} // verus!
