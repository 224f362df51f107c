//! Storage of the epoch-driven market: configuration, genesis status per
//! asset, rounds by (asset, epoch), bets by (asset, epoch, user), each
//! user's recent epochs per asset, and the treasury's accumulated fees.
use vstd::prelude::*;
use crate::division::fits_i128;
use crate::prediction_types::{Asset, Bet, Config, GenesisStatus, Round};
use crate::table::{
    distinct, lemma_distinct_push, lemma_table_absent, lemma_table_get, lemma_table_push,
    lemma_table_update, table,
};

verus! {

/// Most epochs remembered per (asset, user); the oldest is dropped first.
pub const USER_EPOCHS_CAP: usize = 32;

/// A stored round.
#[derive(Clone, Copy, Debug)]
pub struct RoundEntry {
    pub asset: Asset,
    pub epoch: u64,
    pub round: Round,
}

/// A stored bet.
#[derive(Clone, Debug)]
pub struct BetEntry {
    pub asset: Asset,
    pub epoch: u64,
    pub user: String,
    pub bet: Bet,
}

/// A user's recent epochs for one asset.
#[derive(Clone, Debug)]
pub struct EpochsEntry {
    pub asset: Asset,
    pub user: String,
    pub epochs: Vec<u64>,
}

/// Keys of stored rounds.
pub open spec fn round_keys(s: Seq<RoundEntry>) -> Seq<(Asset, u64)> {
    s.map_values(|e: RoundEntry| (e.asset, e.epoch))
}

/// Values of stored rounds.
pub open spec fn round_vals(s: Seq<RoundEntry>) -> Seq<Round> {
    s.map_values(|e: RoundEntry| e.round)
}

/// Keys of stored bets.
pub open spec fn bet_keys(s: Seq<BetEntry>) -> Seq<(Asset, u64, Seq<char>)> {
    s.map_values(|e: BetEntry| (e.asset, e.epoch, e.user@))
}

/// Values of stored bets.
pub open spec fn bet_vals(s: Seq<BetEntry>) -> Seq<Bet> {
    s.map_values(|e: BetEntry| e.bet)
}

/// Keys of stored epoch lists.
pub open spec fn epochs_keys(s: Seq<EpochsEntry>) -> Seq<(Asset, Seq<char>)> {
    s.map_values(|e: EpochsEntry| (e.asset, e.user@))
}

/// Values of stored epoch lists.
pub open spec fn epochs_vals(s: Seq<EpochsEntry>) -> Seq<Seq<u64>> {
    s.map_values(|e: EpochsEntry| e.epochs@)
}

/// A user's epoch list after recording `epoch`: unchanged if already
/// there; otherwise appended, dropping the oldest once the list is full.
pub open spec fn ring_push(buf: Seq<u64>, epoch: u64) -> Seq<u64> {
    if buf.contains(epoch) {
        buf
    } else if buf.len() >= USER_EPOCHS_CAP {
        buf.subrange(1, buf.len() as int).push(epoch)
    } else {
        buf.push(epoch)
    }
}

/// The market's storage as a mathematical value.
pub struct StoreState {
    pub config: Option<Config>,
    pub genesis_btc: GenesisStatus,
    pub genesis_eth: GenesisStatus,
    pub genesis_sol: GenesisStatus,
    pub genesis_xlm: GenesisStatus,
    pub rounds: Map<(Asset, u64), Round>,
    pub bets: Map<(Asset, u64, Seq<char>), Bet>,
    pub user_epochs: Map<(Asset, Seq<char>), Seq<u64>>,
    pub treasury: i128,
}

impl StoreState {
    /// Genesis status of an asset.
    pub open spec fn genesis(self, asset: Asset) -> GenesisStatus {
        match asset {
            Asset::Btc => self.genesis_btc,
            Asset::Eth => self.genesis_eth,
            Asset::Sol => self.genesis_sol,
            Asset::Xlm => self.genesis_xlm,
        }
    }

    /// The storage with an asset's genesis status replaced.
    pub open spec fn with_genesis(self, asset: Asset, status: GenesisStatus) -> StoreState {
        match asset {
            Asset::Btc => StoreState { genesis_btc: status, ..self },
            Asset::Eth => StoreState { genesis_eth: status, ..self },
            Asset::Sol => StoreState { genesis_sol: status, ..self },
            Asset::Xlm => StoreState { genesis_xlm: status, ..self },
        }
    }

    /// The round of `asset` at `epoch`, if stored.
    pub open spec fn round(self, asset: Asset, epoch: u64) -> Option<Round> {
        if self.rounds.contains_key((asset, epoch)) {
            Some(self.rounds[(asset, epoch)])
        } else {
            None
        }
    }

    /// The bet of `user` on `asset` at `epoch`, if stored.
    pub open spec fn bet(self, asset: Asset, epoch: u64, user: Seq<char>) -> Option<Bet> {
        if self.bets.contains_key((asset, epoch, user)) {
            Some(self.bets[(asset, epoch, user)])
        } else {
            None
        }
    }

    /// The recent epochs of `user` on `asset`; empty when none recorded.
    pub open spec fn epochs(self, asset: Asset, user: Seq<char>) -> Seq<u64> {
        if self.user_epochs.contains_key((asset, user)) {
            self.user_epochs[(asset, user)]
        } else {
            Seq::empty()
        }
    }
}

/// The epoch-driven market's storage.
pub struct PredictionStore {
    config: Option<Config>,
    genesis_btc: GenesisStatus,
    genesis_eth: GenesisStatus,
    genesis_sol: GenesisStatus,
    genesis_xlm: GenesisStatus,
    rounds: Vec<RoundEntry>,
    bets: Vec<BetEntry>,
    user_epochs: Vec<EpochsEntry>,
    treasury: i128,
}

impl View for PredictionStore {
    type V = StoreState;

    closed spec fn view(&self) -> StoreState {
        StoreState {
            config: self.config,
            genesis_btc: self.genesis_btc,
            genesis_eth: self.genesis_eth,
            genesis_sol: self.genesis_sol,
            genesis_xlm: self.genesis_xlm,
            rounds: table(round_keys(self.rounds@), round_vals(self.rounds@)),
            bets: table(bet_keys(self.bets@), bet_vals(self.bets@)),
            user_epochs: table(epochs_keys(self.user_epochs@), epochs_vals(self.user_epochs@)),
            treasury: self.treasury,
        }
    }
}

/// A copy of a configuration, field by field.
pub fn copy_config(c: &Config) -> (d: Config)
    ensures
        d == *c,
{
    Config {
        admin: c.admin.clone(),
        oracle: c.oracle.clone(),
        token: c.token.clone(),
        treasury: c.treasury.clone(),
        fee_bps: c.fee_bps,
        interval_secs: c.interval_secs,
        min_bet: c.min_bet,
        oracle_staleness_tolerance: c.oracle_staleness_tolerance,
        paused: c.paused,
        tie_refund: c.tie_refund,
    }
}

/// A copy of a list of epochs.
fn copy_epochs(v: &Vec<u64>) -> (r: Vec<u64>)
    ensures
        r@ == v@,
{
    let mut r: Vec<u64> = Vec::new();
    let mut i: usize = 0;
    while i < v.len()
        invariant
            i <= v@.len(),
            r@ == v@.take(i as int),
        decreases v@.len() - i,
    {
        r.push(v[i]);
        i = i + 1;
        proof {
            assert(r@ =~= v@.take(i as int));
        }
    }
    proof {
        assert(v@.take(i as int) =~= v@);
    }
    r
}

impl PredictionStore {
    /// The invariant of the stored tables: no key occurs twice.
    pub closed spec fn inv(&self) -> bool {
        &&& distinct(round_keys(self.rounds@))
        &&& distinct(bet_keys(self.bets@))
        &&& distinct(epochs_keys(self.user_epochs@))
    }

    /// Empty storage.
    pub fn new() -> (r: PredictionStore)
        ensures
            r.inv(),
            r@.config is None,
            r@.genesis_btc == GenesisStatus::NotStarted,
            r@.genesis_eth == GenesisStatus::NotStarted,
            r@.genesis_sol == GenesisStatus::NotStarted,
            r@.genesis_xlm == GenesisStatus::NotStarted,
            r@.rounds == Map::<(Asset, u64), Round>::empty(),
            r@.bets == Map::<(Asset, u64, Seq<char>), Bet>::empty(),
            r@.user_epochs == Map::<(Asset, Seq<char>), Seq<u64>>::empty(),
            r@.treasury == 0,
    {
        let r = PredictionStore {
            config: None,
            genesis_btc: GenesisStatus::NotStarted,
            genesis_eth: GenesisStatus::NotStarted,
            genesis_sol: GenesisStatus::NotStarted,
            genesis_xlm: GenesisStatus::NotStarted,
            rounds: Vec::new(),
            bets: Vec::new(),
            user_epochs: Vec::new(),
            treasury: 0,
        };
        proof {
            assert(round_keys(r.rounds@).len() == 0);
            assert(bet_keys(r.bets@).len() == 0);
            assert(epochs_keys(r.user_epochs@).len() == 0);
            assert(r@.rounds =~= Map::<(Asset, u64), Round>::empty());
            assert(r@.bets =~= Map::<(Asset, u64, Seq<char>), Bet>::empty());
            assert(r@.user_epochs =~= Map::<(Asset, Seq<char>), Seq<u64>>::empty());
        }
        r
    }

    /// Stores the configuration.
    pub fn set_config(&mut self, config: Config)
        ensures
            final(self).inv() == old(self).inv(),
            final(self)@ == (StoreState { config: Some(config), ..old(self)@ }),
    {
        self.config = Some(config);
    }

    /// The stored configuration; the market must be initialized.
    pub fn get_config(&self) -> (r: Config)
        requires
            self@.config is Some,
        ensures
            r == self@.config.unwrap(),
    {
        match &self.config {
            Some(c) => copy_config(c),
            None => {
                proof {
                    assert(false);
                }
                copy_config(self.config.as_ref().unwrap())
            },
        }
    }

    /// Whether the market has been initialized.
    pub fn has_config(&self) -> (r: bool)
        ensures
            r == self@.config is Some,
    {
        self.config.is_some()
    }

    /// Records an asset's genesis status.
    pub fn set_genesis_status(&mut self, asset: &Asset, status: GenesisStatus)
        ensures
            final(self).inv() == old(self).inv(),
            final(self)@ == old(self)@.with_genesis(*asset, status),
    {
        match asset {
            Asset::Btc => {
                self.genesis_btc = status;
            },
            Asset::Eth => {
                self.genesis_eth = status;
            },
            Asset::Sol => {
                self.genesis_sol = status;
            },
            Asset::Xlm => {
                self.genesis_xlm = status;
            },
        }
    }

    /// An asset's genesis status; `NotStarted` until genesis runs.
    pub fn get_genesis_status(&self, asset: &Asset) -> (r: GenesisStatus)
        ensures
            r == self@.genesis(*asset),
    {
        match asset {
            Asset::Btc => self.genesis_btc,
            Asset::Eth => self.genesis_eth,
            Asset::Sol => self.genesis_sol,
            Asset::Xlm => self.genesis_xlm,
        }
    }

    /// Index of the round of `asset` at `epoch`.
    fn find_round(&self, asset: &Asset, epoch: u64) -> (r: Option<usize>)
        requires
            self.inv(),
        ensures
            match r {
                Some(i) => i < self.rounds@.len() && round_keys(self.rounds@)[i as int] == (
                *asset,
                epoch,
                ),
                None => forall|j: int|
                    0 <= j < self.rounds@.len() ==> round_keys(self.rounds@)[j] != (*asset, epoch),
            },
    {
        let mut i: usize = 0;
        while i < self.rounds.len()
            invariant
                i <= self.rounds@.len(),
                forall|j: int| 0 <= j < i ==> round_keys(self.rounds@)[j] != (*asset, epoch),
            decreases self.rounds@.len() - i,
        {
            if self.rounds[i].asset == *asset && self.rounds[i].epoch == epoch {
                return Some(i);
            }
            i = i + 1;
        }
        None
    }

    /// Stores the round of `asset` at `epoch`.
    pub fn set_round(&mut self, asset: &Asset, epoch: u64, round: &Round)
        requires
            old(self).inv(),
        ensures
            final(self).inv(),
            final(self)@ == (StoreState {
                rounds: old(self)@.rounds.insert((*asset, epoch), *round),
                ..old(self)@
            }),
    {
        let ghost old_rounds = self.rounds@;
        let entry = RoundEntry { asset: *asset, epoch, round: *round };
        match self.find_round(asset, epoch) {
            Some(i) => {
                self.rounds.set(i, entry);
                proof {
                    assert(round_keys(self.rounds@) =~= round_keys(old_rounds));
                    assert(round_vals(self.rounds@) =~= round_vals(old_rounds).update(
                        i as int,
                        *round,
                    ));
                    lemma_table_update(round_keys(old_rounds), round_vals(old_rounds), i as int, *round);
                }
            },
            None => {
                self.rounds.push(entry);
                proof {
                    assert(round_keys(self.rounds@) =~= round_keys(old_rounds).push((*asset, epoch)));
                    assert(round_vals(self.rounds@) =~= round_vals(old_rounds).push(*round));
                    lemma_table_push(round_keys(old_rounds), round_vals(old_rounds), (*asset, epoch), *round);
                    lemma_distinct_push(round_keys(old_rounds), (*asset, epoch));
                }
            },
        }
    }

    /// The round of `asset` at `epoch`, if stored.
    pub fn get_round(&self, asset: &Asset, epoch: u64) -> (r: Option<Round>)
        requires
            self.inv(),
        ensures
            r == self@.round(*asset, epoch),
    {
        match self.find_round(asset, epoch) {
            Some(i) => {
                proof {
                    lemma_table_get(round_keys(self.rounds@), round_vals(self.rounds@), i as int);
                }
                Some(self.rounds[i].round)
            },
            None => {
                proof {
                    lemma_table_absent(round_keys(self.rounds@), round_vals(self.rounds@), (*asset, epoch));
                }
                None
            },
        }
    }

    /// Whether a round is stored for `asset` at `epoch`.
    pub fn has_round(&self, asset: &Asset, epoch: u64) -> (r: bool)
        requires
            self.inv(),
        ensures
            r == self@.rounds.contains_key((*asset, epoch)),
    {
        self.get_round(asset, epoch).is_some()
    }

    /// Index of the bet of `user` on `asset` at `epoch`.
    fn find_bet(&self, asset: &Asset, epoch: u64, user: &String) -> (r: Option<usize>)
        requires
            self.inv(),
        ensures
            match r {
                Some(i) => i < self.bets@.len() && bet_keys(self.bets@)[i as int] == (
                *asset,
                epoch,
                user@,
                ),
                None => forall|j: int|
                    0 <= j < self.bets@.len() ==> bet_keys(self.bets@)[j] != (*asset, epoch, user@),
            },
    {
        let mut i: usize = 0;
        while i < self.bets.len()
            invariant
                i <= self.bets@.len(),
                forall|j: int| 0 <= j < i ==> bet_keys(self.bets@)[j] != (*asset, epoch, user@),
            decreases self.bets@.len() - i,
        {
            let e = &self.bets[i];
            if e.asset == *asset && e.epoch == epoch && e.user == *user {
                return Some(i);
            }
            i = i + 1;
        }
        None
    }

    /// Stores the bet of `user` on `asset` at `epoch`.
    pub fn set_bet(&mut self, asset: &Asset, epoch: u64, user: &String, bet: &Bet)
        requires
            old(self).inv(),
        ensures
            final(self).inv(),
            final(self)@ == (StoreState {
                bets: old(self)@.bets.insert((*asset, epoch, user@), *bet),
                ..old(self)@
            }),
    {
        let ghost old_bets = self.bets@;
        let entry = BetEntry { asset: *asset, epoch, user: user.clone(), bet: *bet };
        match self.find_bet(asset, epoch, user) {
            Some(i) => {
                self.bets.set(i, entry);
                proof {
                    assert(bet_keys(self.bets@) =~= bet_keys(old_bets));
                    assert(bet_vals(self.bets@) =~= bet_vals(old_bets).update(i as int, *bet));
                    lemma_table_update(bet_keys(old_bets), bet_vals(old_bets), i as int, *bet);
                }
            },
            None => {
                self.bets.push(entry);
                proof {
                    assert(bet_keys(self.bets@) =~= bet_keys(old_bets).push((*asset, epoch, user@)));
                    assert(bet_vals(self.bets@) =~= bet_vals(old_bets).push(*bet));
                    lemma_table_push(bet_keys(old_bets), bet_vals(old_bets), (*asset, epoch, user@), *bet);
                    lemma_distinct_push(bet_keys(old_bets), (*asset, epoch, user@));
                }
            },
        }
    }

    /// The bet of `user` on `asset` at `epoch`, if stored.
    pub fn get_bet(&self, asset: &Asset, epoch: u64, user: &String) -> (r: Option<Bet>)
        requires
            self.inv(),
        ensures
            r == self@.bet(*asset, epoch, user@),
    {
        match self.find_bet(asset, epoch, user) {
            Some(i) => {
                proof {
                    lemma_table_get(bet_keys(self.bets@), bet_vals(self.bets@), i as int);
                }
                Some(self.bets[i].bet)
            },
            None => {
                proof {
                    lemma_table_absent(bet_keys(self.bets@), bet_vals(self.bets@), (*asset, epoch, user@));
                }
                None
            },
        }
    }

    /// Index of the epoch list of `user` on `asset`.
    fn find_epochs(&self, asset: &Asset, user: &String) -> (r: Option<usize>)
        requires
            self.inv(),
        ensures
            match r {
                Some(i) => i < self.user_epochs@.len() && epochs_keys(self.user_epochs@)[i as int]
                    == (*asset, user@),
                None => forall|j: int|
                    0 <= j < self.user_epochs@.len() ==> epochs_keys(self.user_epochs@)[j] != (
                    *asset,
                    user@,
                    ),
            },
    {
        let mut i: usize = 0;
        while i < self.user_epochs.len()
            invariant
                i <= self.user_epochs@.len(),
                forall|j: int| 0 <= j < i ==> epochs_keys(self.user_epochs@)[j] != (*asset, user@),
            decreases self.user_epochs@.len() - i,
        {
            let e = &self.user_epochs[i];
            if e.asset == *asset && e.user == *user {
                return Some(i);
            }
            i = i + 1;
        }
        None
    }

    /// The recent epochs of `user` on `asset`, oldest first.
    pub fn get_user_epochs(&self, asset: &Asset, user: &String) -> (r: Vec<u64>)
        requires
            self.inv(),
        ensures
            r@ == self@.epochs(*asset, user@),
    {
        match self.find_epochs(asset, user) {
            Some(i) => {
                proof {
                    lemma_table_get(epochs_keys(self.user_epochs@), epochs_vals(self.user_epochs@), i as int);
                }
                copy_epochs(&self.user_epochs[i].epochs)
            },
            None => {
                proof {
                    lemma_table_absent(epochs_keys(self.user_epochs@), epochs_vals(self.user_epochs@), (*asset, user@));
                }
                Vec::new()
            },
        }
    }

    /// Records `epoch` among `user`'s recent epochs on `asset`: nothing
    /// changes if it is already there; otherwise it is appended, and once 32
    /// epochs are kept the oldest is dropped.
    pub fn push_user_epoch(&mut self, asset: &Asset, user: &String, epoch: u64)
        requires
            old(self).inv(),
        ensures
            final(self).inv(),
            final(self)@ == (StoreState {
                user_epochs: if old(self)@.epochs(*asset, user@).contains(epoch) {
                    old(self)@.user_epochs
                } else {
                    old(self)@.user_epochs.insert(
                        (*asset, user@),
                        ring_push(old(self)@.epochs(*asset, user@), epoch),
                    )
                },
                ..old(self)@
            }),
    {
        let buf = self.get_user_epochs(asset, user);
        let ghost old_buf = buf@;
        let mut i: usize = 0;
        while i < buf.len()
            invariant
                i <= buf@.len(),
                buf@ == old_buf,
                forall|j: int| 0 <= j < i ==> buf@[j] != epoch,
                self.inv(),
                self@ == old(self)@,
                old_buf == old(self)@.epochs(*asset, user@),
            decreases buf@.len() - i,
        {
            if buf[i] == epoch {
                proof {
                    assert(old_buf[i as int] == epoch);
                }
                return;
            }
            i = i + 1;
        }
        proof {
            assert(!old_buf.contains(epoch));
        }
        let mut new_buf: Vec<u64> = Vec::new();
        if buf.len() >= USER_EPOCHS_CAP {
            let mut j: usize = 1;
            while j < buf.len()
                invariant
                    1 <= j <= buf@.len(),
                    buf@ == old_buf,
                    new_buf@ == old_buf.subrange(1, j as int),
                decreases buf@.len() - j,
            {
                new_buf.push(buf[j]);
                j = j + 1;
                proof {
                    assert(new_buf@ =~= old_buf.subrange(1, j as int));
                }
            }
        } else {
            new_buf = buf;
        }
        new_buf.push(epoch);
        proof {
            assert(new_buf@ =~= ring_push(old_buf, epoch));
        }
        let ghost old_list = self.user_epochs@;
        let entry = EpochsEntry { asset: *asset, user: user.clone(), epochs: new_buf };
        match self.find_epochs(asset, user) {
            Some(k) => {
                self.user_epochs.set(k, entry);
                proof {
                    assert(epochs_keys(self.user_epochs@) =~= epochs_keys(old_list));
                    assert(epochs_vals(self.user_epochs@) =~= epochs_vals(old_list).update(
                        k as int,
                        ring_push(old_buf, epoch),
                    ));
                    lemma_table_update(epochs_keys(old_list), epochs_vals(old_list), k as int, ring_push(old_buf, epoch));
                }
            },
            None => {
                self.user_epochs.push(entry);
                proof {
                    assert(epochs_keys(self.user_epochs@) =~= epochs_keys(old_list).push((*asset, user@)));
                    assert(epochs_vals(self.user_epochs@) =~= epochs_vals(old_list).push(ring_push(old_buf, epoch)));
                    lemma_table_push(epochs_keys(old_list), epochs_vals(old_list), (*asset, user@), ring_push(old_buf, epoch));
                    lemma_distinct_push(epochs_keys(old_list), (*asset, user@));
                }
            },
        }
    }

    /// Adds `amount` to the treasury's accumulated fees.
    pub fn add_treasury(&mut self, amount: i128)
        requires
            fits_i128(old(self)@.treasury + amount),
        ensures
            final(self).inv() == old(self).inv(),
            final(self)@ == (StoreState { treasury: (old(self)@.treasury + amount) as i128, ..old(self)@ }),
    {
        self.treasury = self.treasury + amount;
    }

    /// The treasury's accumulated fees.
    pub fn get_treasury(&self) -> (r: i128)
        ensures
            r == self@.treasury,
    {
        self.treasury
    }

    /// Empties the treasury's accumulated fees.
    pub fn clear_treasury(&mut self)
        ensures
            final(self).inv() == old(self).inv(),
            final(self)@ == (StoreState { treasury: 0, ..old(self)@ }),
    {
        self.treasury = 0;
    }
}


/// The market's storage laid out for saving between calls.
pub struct StoreParts {
    pub config: Option<Config>,
    pub genesis_btc: GenesisStatus,
    pub genesis_eth: GenesisStatus,
    pub genesis_sol: GenesisStatus,
    pub genesis_xlm: GenesisStatus,
    pub rounds: Vec<RoundEntry>,
    pub bets: Vec<BetEntry>,
    pub user_epochs: Vec<EpochsEntry>,
    pub treasury: i128,
}

impl StoreParts {
    /// The storage these parts describe.
    pub open spec fn state(&self) -> StoreState {
        StoreState {
            config: self.config,
            genesis_btc: self.genesis_btc,
            genesis_eth: self.genesis_eth,
            genesis_sol: self.genesis_sol,
            genesis_xlm: self.genesis_xlm,
            rounds: table(round_keys(self.rounds@), round_vals(self.rounds@)),
            bets: table(bet_keys(self.bets@), bet_vals(self.bets@)),
            user_epochs: table(epochs_keys(self.user_epochs@), epochs_vals(self.user_epochs@)),
            treasury: self.treasury,
        }
    }

    /// No table holds a key twice.
    pub open spec fn keys_distinct(&self) -> bool {
        &&& distinct(round_keys(self.rounds@))
        &&& distinct(bet_keys(self.bets@))
        &&& distinct(epochs_keys(self.user_epochs@))
    }
}

/// Whether no round key occurs twice.
fn round_keys_distinct(v: &Vec<RoundEntry>) -> (r: bool)
    ensures
        r == distinct(round_keys(v@)),
{
    let ghost keys = round_keys(v@);
    let n: usize = v.len();
    let mut i: usize = 0;
    while i < n
        invariant
            keys == round_keys(v@),
            n == v@.len(),
            i <= n,
            forall|a: int, b: int| 0 <= a < i && 0 <= b < n && a != b ==> #[trigger] keys[a] != #[trigger] keys[b],
        decreases n - i,
    {
        let mut j: usize = 0;
        while j < n
            invariant
                keys == round_keys(v@),
                n == v@.len(),
                i < n,
                j <= n,
                forall|b: int| 0 <= b < j && b != i ==> keys[i as int] != #[trigger] keys[b],
            decreases n - j,
        {
            if j != i && v[i].asset == v[j].asset && v[i].epoch == v[j].epoch {
                proof {
                    assert(keys[i as int] == keys[j as int]);
                }
                return false;
            }
            j = j + 1;
        }
        proof {
            assert forall|a: int, b: int| 0 <= a < i + 1 && 0 <= b < n && a != b implies #[trigger] keys[a]
                != #[trigger] keys[b] by {
                if a == i {
                    assert(keys[i as int] != keys[b]);
                }
            }
        }
        i = i + 1;
    }
    true
}

/// Whether no bet key occurs twice.
fn bet_keys_distinct(v: &Vec<BetEntry>) -> (r: bool)
    ensures
        r == distinct(bet_keys(v@)),
{
    let ghost keys = bet_keys(v@);
    let n: usize = v.len();
    let mut i: usize = 0;
    while i < n
        invariant
            keys == bet_keys(v@),
            n == v@.len(),
            i <= n,
            forall|a: int, b: int| 0 <= a < i && 0 <= b < n && a != b ==> #[trigger] keys[a] != #[trigger] keys[b],
        decreases n - i,
    {
        let mut j: usize = 0;
        while j < n
            invariant
                keys == bet_keys(v@),
                n == v@.len(),
                i < n,
                j <= n,
                forall|b: int| 0 <= b < j && b != i ==> keys[i as int] != #[trigger] keys[b],
            decreases n - j,
        {
            if j != i && v[i].asset == v[j].asset && v[i].epoch == v[j].epoch && v[i].user
                == v[j].user {
                proof {
                    assert(keys[i as int] == keys[j as int]);
                }
                return false;
            }
            j = j + 1;
        }
        proof {
            assert forall|a: int, b: int| 0 <= a < i + 1 && 0 <= b < n && a != b implies #[trigger] keys[a]
                != #[trigger] keys[b] by {
                if a == i {
                    assert(keys[i as int] != keys[b]);
                }
            }
        }
        i = i + 1;
    }
    true
}

/// Whether no epoch-list key occurs twice.
fn epochs_keys_distinct(v: &Vec<EpochsEntry>) -> (r: bool)
    ensures
        r == distinct(epochs_keys(v@)),
{
    let ghost keys = epochs_keys(v@);
    let n: usize = v.len();
    let mut i: usize = 0;
    while i < n
        invariant
            keys == epochs_keys(v@),
            n == v@.len(),
            i <= n,
            forall|a: int, b: int| 0 <= a < i && 0 <= b < n && a != b ==> #[trigger] keys[a] != #[trigger] keys[b],
        decreases n - i,
    {
        let mut j: usize = 0;
        while j < n
            invariant
                keys == epochs_keys(v@),
                n == v@.len(),
                i < n,
                j <= n,
                forall|b: int| 0 <= b < j && b != i ==> keys[i as int] != #[trigger] keys[b],
            decreases n - j,
        {
            if j != i && v[i].asset == v[j].asset && v[i].user == v[j].user {
                proof {
                    assert(keys[i as int] == keys[j as int]);
                }
                return false;
            }
            j = j + 1;
        }
        proof {
            assert forall|a: int, b: int| 0 <= a < i + 1 && 0 <= b < n && a != b implies #[trigger] keys[a]
                != #[trigger] keys[b] by {
                if a == i {
                    assert(keys[i as int] != keys[b]);
                }
            }
        }
        i = i + 1;
    }
    true
}

impl PredictionStore {
    /// Rebuilds the storage from saved parts; `None` when a table holds a
    /// key twice.
    pub fn from_parts(parts: StoreParts) -> (r: Option<PredictionStore>)
        ensures
            r is Some <==> parts.keys_distinct(),
            match r {
                Some(s) => s.inv() && s@ == parts.state(),
                None => true,
            },
    {
        let ok = round_keys_distinct(&parts.rounds) && bet_keys_distinct(&parts.bets)
            && epochs_keys_distinct(&parts.user_epochs);
        if !ok {
            return None;
        }
        Some(
            PredictionStore {
                config: parts.config,
                genesis_btc: parts.genesis_btc,
                genesis_eth: parts.genesis_eth,
                genesis_sol: parts.genesis_sol,
                genesis_xlm: parts.genesis_xlm,
                rounds: parts.rounds,
                bets: parts.bets,
                user_epochs: parts.user_epochs,
                treasury: parts.treasury,
            },
        )
    }

    /// Hands over the storage for saving.
    pub fn into_parts(self) -> (r: StoreParts)
        requires
            self.inv(),
        ensures
            r.keys_distinct(),
            r.state() == self@,
    {
        StoreParts {
            config: self.config,
            genesis_btc: self.genesis_btc,
            genesis_eth: self.genesis_eth,
            genesis_sol: self.genesis_sol,
            genesis_xlm: self.genesis_xlm,
            rounds: self.rounds,
            bets: self.bets,
            user_epochs: self.user_epochs,
            treasury: self.treasury,
        }
    }
}


impl PredictionStore {
    /// A copy of the storage.
    pub fn duplicate(&self) -> (r: PredictionStore)
        requires
            self.inv(),
        ensures
            r.inv(),
            r@ == self@,
    {
        let config = match &self.config {
            None => None,
            Some(c) => Some(copy_config(c)),
        };
        let mut rounds: Vec<RoundEntry> = Vec::new();
        let mut i: usize = 0;
        while i < self.rounds.len()
            invariant
                i <= self.rounds@.len(),
                rounds@ == self.rounds@.take(i as int),
            decreases self.rounds@.len() - i,
        {
            rounds.push(self.rounds[i]);
            i = i + 1;
            proof {
                assert(rounds@ =~= self.rounds@.take(i as int));
            }
        }
        let mut bets: Vec<BetEntry> = Vec::new();
        let mut i: usize = 0;
        while i < self.bets.len()
            invariant
                i <= self.bets@.len(),
                bets@ == self.bets@.take(i as int),
            decreases self.bets@.len() - i,
        {
            let e = &self.bets[i];
            bets.push(BetEntry { asset: e.asset, epoch: e.epoch, user: e.user.clone(), bet: e.bet });
            i = i + 1;
            proof {
                assert(bets@ =~= self.bets@.take(i as int));
            }
        }
        let mut user_epochs: Vec<EpochsEntry> = Vec::new();
        let mut i: usize = 0;
        while i < self.user_epochs.len()
            invariant
                i <= self.user_epochs@.len(),
                user_epochs@.len() == i,
                forall|k: int|
                    0 <= k < i ==> {
                        &&& #[trigger] user_epochs@[k].asset == self.user_epochs@[k].asset
                        &&& user_epochs@[k].user@ == self.user_epochs@[k].user@
                        &&& user_epochs@[k].epochs@ == self.user_epochs@[k].epochs@
                    },
            decreases self.user_epochs@.len() - i,
        {
            let e = &self.user_epochs[i];
            user_epochs.push(
                EpochsEntry { asset: e.asset, user: e.user.clone(), epochs: copy_epochs(&e.epochs) },
            );
            i = i + 1;
        }
        proof {
            assert(rounds@ =~= self.rounds@);
            assert(bets@ =~= self.bets@);
            assert forall|k: int| 0 <= k < user_epochs@.len() implies #[trigger] epochs_keys(user_epochs@)[k]
                == epochs_keys(self.user_epochs@)[k] by {
                assert(user_epochs@[k].asset == self.user_epochs@[k].asset);
            }
            assert forall|k: int| 0 <= k < user_epochs@.len() implies #[trigger] epochs_vals(user_epochs@)[k]
                == epochs_vals(self.user_epochs@)[k] by {
                assert(user_epochs@[k].asset == self.user_epochs@[k].asset);
            }
            assert(epochs_keys(user_epochs@) =~= epochs_keys(self.user_epochs@));
            assert(epochs_vals(user_epochs@) =~= epochs_vals(self.user_epochs@));
        }
        PredictionStore {
            config,
            genesis_btc: self.genesis_btc,
            genesis_eth: self.genesis_eth,
            genesis_sol: self.genesis_sol,
            genesis_xlm: self.genesis_xlm,
            rounds,
            bets,
            user_epochs,
            treasury: self.treasury,
        }
    }
}

} // verus!
