//! Stake-weighted consensus over subnetworks of registered neurons.
//!
//! Each subnetwork is a directed graph: its neurons assign one another
//! weights, and at every epoch the weights and the stake behind them are
//! turned into rank, trust, consensus, incentive, dividends and emission.
//! Fractions are sixteen-bit fixed-point numbers in which `fixed::ONE`
//! stands for 1.

pub mod config;
pub mod epoch;
pub mod fixed;
pub mod ledger;
pub mod pallet;
pub mod subnet;
pub mod types;
pub mod weights;

pub use config::Config;
pub use config::DefaultActive;
pub use config::DefaultBlocksPerStep;
pub use config::DefaultBonds;
pub use config::DefaultColdkeyAccount;
pub use config::DefaultConsensus;
pub use config::DefaultDividends;
pub use config::DefaultEmission;
pub use config::DefaultEmissionRatio;
pub use config::DefaultHotkeyAccount;
pub use config::DefaultIncentive;
pub use config::DefaultKey;
pub use config::DefaultMaxAllowedMaxMinRatio;
pub use config::DefaultMinAllowedWeights;
pub use config::DefaultN;
pub use config::DefaultRank;
pub use config::DefaultStake;
pub use config::DefaultTempo;
pub use config::DefaultTotalIssuance;
pub use config::DefaultTrust;
pub use config::DefaultUid;
pub use config::DefaultWeights;
pub use epoch::Hyper;
pub use ledger::Account;
pub use ledger::Axon;
pub use ledger::Ledger;
pub use pallet::NeuronMetadata;
pub use pallet::Pallet;
pub use pallet::Payout;
pub use subnet::Subnet;
pub use subnet::SubnetParts;
pub use types::AccountId;
pub use types::Error;
pub use types::Event;
