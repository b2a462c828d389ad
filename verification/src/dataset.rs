//! Reading the cold store: where a day lies, and what its manifest says.
use vstd::prelude::*;
use crate::event::Venue;
use crate::layout::{manifest_file, manifest_path, partition_file, partition_path};
use crate::manifest::{Gap, QualityManifest};
use crate::number::Real;

verus! {

/// A read-only view of the cold store below `root`.
#[derive(Debug)]
pub struct Dataset {
    root: String,
}

impl Dataset {
    pub closed spec fn root_text(&self) -> Seq<char> {
        self.root@
    }

    /// The store below `root`.
    pub fn open(root: &str) -> (d: Dataset)
        ensures
            d.root_text() == root@,
    {
        Dataset { root: root.to_owned() }
    }

    /// Where the store lies.
    pub fn root(&self) -> (s: &str)
        ensures
            s@ == self.root_text(),
    {
        self.root.as_str()
    }

    /// The file of a stream's day.
    pub fn day(&self, stream: &str, venue: Venue, symbol: &str, date: &str) -> (s: String)
        ensures
            s@ == partition_path(self.root_text(), stream@, venue, symbol@, date@),
    {
        partition_file(self.root.as_str(), stream, venue, symbol, date)
    }

    /// The file of a day's trades.
    pub fn trades_day(&self, venue: Venue, symbol: &str, date: &str) -> (s: String)
        ensures
            s@ == partition_path(self.root_text(), "trades"@, venue, symbol@, date@),
    {
        self.day("trades", venue, symbol, date)
    }

    /// The file of a day's whale positions.
    pub fn positions_day(&self, venue: Venue, symbol: &str, date: &str) -> (s: String)
        ensures
            s@ == partition_path(self.root_text(), "positions"@, venue, symbol@, date@),
    {
        self.day("positions", venue, symbol, date)
    }

    /// The file of a day's macro points.
    pub fn macro_day(&self, venue: Venue, symbol: &str, date: &str) -> (s: String)
        ensures
            s@ == partition_path(self.root_text(), "macro"@, venue, symbol@, date@),
    {
        self.day("macro", venue, symbol, date)
    }

    /// The file of a day's options.
    pub fn options_day(&self, venue: Venue, symbol: &str, date: &str) -> (s: String)
        ensures
            s@ == partition_path(self.root_text(), "options"@, venue, symbol@, date@),
    {
        self.day("options", venue, symbol, date)
    }

    /// The manifest of a venue's day.
    pub fn manifest(&self, venue: Venue, date: &str) -> (s: String)
        ensures
            s@ == manifest_path(self.root_text(), venue, date@),
    {
        manifest_file(self.root.as_str(), venue, date)
    }

    /// A stream's coverage, from the manifest alone.
    pub fn coverage(&self, manifest: &QualityManifest, stream_key: &str) -> (r: Option<Real>)
        requires
            manifest.streams.wf(),
        ensures
            r == if manifest.streams.map().dom().contains(stream_key@) {
                Some(manifest.streams.map()[stream_key@].coverage)
            } else {
                None
            },
    {
        manifest.coverage(stream_key)
    }

    /// A stream's gaps, from the manifest alone.
    pub fn gaps(&self, manifest: &QualityManifest, stream_key: &str) -> (r: Vec<Gap>)
        requires
            manifest.streams.wf(),
        ensures
            r@ == if manifest.streams.map().dom().contains(stream_key@) {
                manifest.streams.map()[stream_key@].gaps@
            } else {
                Seq::empty()
            },
    {
        manifest.gaps(stream_key)
    }
}

} // verus!
