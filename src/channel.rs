//! The channel data model: what one scrape of the status page yields.
//!
//! Physical quantities are kept as the decimal literal that the page shows,
//! stripped of its unit (`"-1.0"` for `-1.0 dBmV`). Every such literal is a
//! finite floating-point literal, which `crate::text::is_float_literal`
//! describes.

use vstd::prelude::*;

verus! {

#[derive(Clone, Copy, Debug, PartialEq, Eq)]
pub enum Direction {
    Downstream,
    Upstream,
}

/// The numeric columns of a channel row.
#[derive(Clone, Copy, Debug, PartialEq, Eq)]
pub enum Field {
    Channel,
    Frequency,
    Power,
    Snr,
    SymbolRate,
    Correctables,
    Uncorrectables,
}

#[derive(Clone, Debug, PartialEq, Eq)]
pub enum ParseError {
    /// The text could not be read as a markup tree. The HTML parser in use
    /// recovers from any input, so `parse` never reports this.
    MalformedDocument,
    /// A table headed as upstream or downstream lacks its column-label row.
    MissingHeaderRow,
    /// A data row has the wrong number of cells for its direction.
    UnexpectedRowShape { direction: Direction, expected: usize, got: usize },
    /// A numeric cell does not hold a number once its unit is stripped.
    InvalidNumericField { field: Field, raw_value: String },
}

pub enum ErrorView {
    MalformedDocument,
    MissingHeaderRow,
    UnexpectedRowShape { direction: Direction, expected: nat, got: nat },
    InvalidNumericField { field: Field, raw_value: Seq<char> },
}

impl View for ParseError {
    type V = ErrorView;

    open spec fn view(&self) -> ErrorView {
        match self {
            ParseError::MalformedDocument => ErrorView::MalformedDocument,
            ParseError::MissingHeaderRow => ErrorView::MissingHeaderRow,
            ParseError::UnexpectedRowShape { direction, expected, got } => {
                ErrorView::UnexpectedRowShape {
                    direction: *direction,
                    expected: *expected as nat,
                    got: *got as nat,
                }
            },
            ParseError::InvalidNumericField { field, raw_value } => {
                ErrorView::InvalidNumericField { field: *field, raw_value: raw_value@ }
            },
        }
    }
}

/// A receive-direction channel.
#[derive(Clone, Debug, PartialEq, Eq)]
pub struct DownstreamChannel {
    pub channel: u16,
    pub lock_status: String,
    pub modulation: String,
    /// Hz.
    pub frequency: String,
    /// dBmV.
    pub power: String,
    /// dB.
    pub snr: String,
    /// Ksym/sec.
    pub symbol_rate: String,
    pub correctables: String,
    pub uncorrectables: String,
}

pub struct DownstreamView {
    pub channel: u16,
    pub lock_status: Seq<char>,
    pub modulation: Seq<char>,
    pub frequency: Seq<char>,
    pub power: Seq<char>,
    pub snr: Seq<char>,
    pub symbol_rate: Seq<char>,
    pub correctables: Seq<char>,
    pub uncorrectables: Seq<char>,
}

impl View for DownstreamChannel {
    type V = DownstreamView;

    open spec fn view(&self) -> DownstreamView {
        DownstreamView {
            channel: self.channel,
            lock_status: self.lock_status@,
            modulation: self.modulation@,
            frequency: self.frequency@,
            power: self.power@,
            snr: self.snr@,
            symbol_rate: self.symbol_rate@,
            correctables: self.correctables@,
            uncorrectables: self.uncorrectables@,
        }
    }
}

/// A transmit-direction channel.
#[derive(Clone, Debug, PartialEq, Eq)]
pub struct UpstreamChannel {
    pub channel: u16,
    pub lock_status: String,
    pub us_channel_type: String,
    /// Hz.
    pub frequency: String,
    /// dBmV.
    pub power: String,
    /// Ksym/sec.
    pub symbol_rate: String,
}

pub struct UpstreamView {
    pub channel: u16,
    pub lock_status: Seq<char>,
    pub us_channel_type: Seq<char>,
    pub frequency: Seq<char>,
    pub power: Seq<char>,
    pub symbol_rate: Seq<char>,
}

impl View for UpstreamChannel {
    type V = UpstreamView;

    open spec fn view(&self) -> UpstreamView {
        UpstreamView {
            channel: self.channel,
            lock_status: self.lock_status@,
            us_channel_type: self.us_channel_type@,
            frequency: self.frequency@,
            power: self.power@,
            symbol_rate: self.symbol_rate@,
        }
    }
}

/// One full scrape: the channels of each direction in page order.
#[derive(Clone, Debug, PartialEq, Eq)]
pub struct ChannelSnapshot {
    pub downstream: Vec<DownstreamChannel>,
    pub upstream: Vec<UpstreamChannel>,
}

pub struct SnapshotView {
    pub downstream: Seq<DownstreamView>,
    pub upstream: Seq<UpstreamView>,
}

impl View for ChannelSnapshot {
    type V = SnapshotView;

    open spec fn view(&self) -> SnapshotView {
        SnapshotView {
            downstream: self.downstream@.map_values(|c: DownstreamChannel| c@),
            upstream: self.upstream@.map_values(|c: UpstreamChannel| c@),
        }
    }
}

pub open spec fn empty_snapshot() -> SnapshotView {
    SnapshotView { downstream: Seq::empty(), upstream: Seq::empty() }
}

/// The channels of `a` followed by those of `b`, direction by direction.
pub open spec fn join(a: SnapshotView, b: SnapshotView) -> SnapshotView {
    SnapshotView { downstream: a.downstream + b.downstream, upstream: a.upstream + b.upstream }
}

pub open spec fn snapshot_result_view(r: Result<ChannelSnapshot, ParseError>) -> Result<
    SnapshotView,
    ErrorView,
> {
    match r {
        Ok(s) => Ok(s@),
        Err(e) => Err(e@),
    }
}

impl ChannelSnapshot {
    pub fn new() -> (r: ChannelSnapshot)
        ensures
            r@ == empty_snapshot(),
    {
        let r = ChannelSnapshot { downstream: Vec::new(), upstream: Vec::new() };
        assert(r@.downstream =~= Seq::empty());
        assert(r@.upstream =~= Seq::empty());
        r
    }
}

} // verus!
