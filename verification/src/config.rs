//! What a running service holds: where it listens, and its store.

use crate::record::AnalysisView;
use crate::store::TempDatabase;
use vstd::prelude::*;

verus! {

/// The address of a service and the store that it serves.
pub struct Config {
    pub url: String,
    pub port: String,
    pub db: TempDatabase,
}

impl Config {
    /// A service at the given port and address, with an empty store.
    pub fn init(port: String, url: String) -> (config: Config)
        ensures
            config.port == port,
            config.url == url,
            config.db@ == Seq::<AnalysisView>::empty(),
    {
        let db = TempDatabase::new();
        Config { port, url, db }
    }
}

} // verus!
