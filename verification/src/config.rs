//! The parameters of a store, fixed when it is built.

use vstd::prelude::*;

verus! {

/// The largest number of pieces per stripe: the symbol field has 257
/// elements, and every piece needs a node of its own.
pub const MAX_PIECES: usize = 257;

/// One million: similarity scores and margins are counted in millionths.
pub const SCORE_SCALE: u32 = 1_000_000;

/// The default similarity margin, one hundredth.
pub const DEFAULT_SIMILARITY_MARGIN: u32 = 10_000;

/// The default bound on the wait for a document's lock, five seconds.
pub const DEFAULT_LOCK_TIMEOUT_MS: u64 = 5_000;

/// The parameters of a store.
#[derive(Clone, Copy, Debug, PartialEq, Eq, Structural)]
pub struct Config {
    /// The number of pieces of a stripe that suffice to rebuild it.
    pub k: usize,
    /// The number of pieces that each stripe is encoded into.
    pub n: usize,
    /// The number of bytes of a chunk.
    pub chunk_size: usize,
    /// Two candidates whose scores differ by less than this many millionths
    /// are too close to tell apart.
    pub similarity_margin: u32,
    /// How long a caller waits for a document's lock, in milliseconds. The
    /// store itself never waits: it reports a held lock at once.
    pub lock_timeout_ms: u64,
}

impl Config {
    /// The parameters can be used: `1 <= k <= n <= 257`, and chunks are not
    /// empty.
    pub open spec fn valid(&self) -> bool {
        &&& 1 <= self.k <= self.n <= MAX_PIECES
        &&& 1 <= self.chunk_size
    }

    /// A configuration with the given code and chunk size, and the default
    /// margin and lock timeout.
    pub fn new(k: usize, n: usize, chunk_size: usize) -> (cfg: Config)
        ensures
            cfg == (Config {
                k,
                n,
                chunk_size,
                similarity_margin: DEFAULT_SIMILARITY_MARGIN,
                lock_timeout_ms: DEFAULT_LOCK_TIMEOUT_MS,
            }),
    {
        Config {
            k,
            n,
            chunk_size,
            similarity_margin: DEFAULT_SIMILARITY_MARGIN,
            lock_timeout_ms: DEFAULT_LOCK_TIMEOUT_MS,
        }
    }

    /// Whether the parameters can be used.
    pub fn is_valid(&self) -> (ok: bool)
        ensures
            ok == self.valid(),
    {
        1 <= self.k && self.k <= self.n && self.n <= MAX_PIECES && 1 <= self.chunk_size
    }
}

} // verus!
