//! The record store: one `Stock` per trading day, with fixed-point prices,
//! a share volume, and a three-valued next-day label.

use vstd::prelude::*;

verus! {

/// What the next trading day holds for a record: a derived label for every
/// record but the last, and `Predict` for the last record, which is the
/// prediction target and never a training example.
#[derive(Debug, Clone, Copy, PartialEq, Eq, Structural)]
pub enum Tomorrow {
    /// The next record's close is at least this record's close.
    Increase,
    /// The next record's close is below this record's close.
    Decrease,
    /// No next record is known: this row is the prediction target.
    Predict,
}

/// One daily record. Prices are in micro-units (`crate::MICROS` to one unit).
#[derive(Debug)]
pub struct Stock {
    pub date: String,
    pub open: i64,
    pub high: i64,
    pub low: i64,
    pub close: i64,
    pub adj_close: i64,
    pub volume: i64,
    pub tomorrow: Tomorrow,
}

/// The feature vector of a record: open, high, low, adjusted close, close,
/// volume, in that fixed order. Its dimension is always six.
pub open spec fn spec_features(s: Stock) -> Seq<i64> {
    seq![s.open, s.high, s.low, s.adj_close, s.close, s.volume]
}

impl Clone for Stock {
    /// A copy that agrees with the original on every field: the date as a
    /// character sequence, every price, the volume and the label.
    fn clone(&self) -> (r: Self)
        ensures
            r.date@ == self.date@,
            r.open == self.open,
            r.high == self.high,
            r.low == self.low,
            r.close == self.close,
            r.adj_close == self.adj_close,
            r.volume == self.volume,
            r.tomorrow == self.tomorrow,
    {
        Stock {
            date: self.date.as_str().to_owned(),
            open: self.open,
            high: self.high,
            low: self.low,
            close: self.close,
            adj_close: self.adj_close,
            volume: self.volume,
            tomorrow: self.tomorrow,
        }
    }
}

impl Stock {
    pub fn new(
        date: String,
        open: i64,
        high: i64,
        low: i64,
        close: i64,
        adj_close: i64,
        volume: i64,
        tomorrow: Tomorrow,
    ) -> (s: Stock)
        ensures
            s.date == date,
            s.open == open,
            s.high == high,
            s.low == low,
            s.close == close,
            s.adj_close == adj_close,
            s.volume == volume,
            s.tomorrow == tomorrow,
    {
        Stock { date, open, high, low, close, adj_close, volume, tomorrow }
    }

    /// The six-entry feature vector used by the classifier.
    pub fn get_array(&self) -> (r: Vec<i64>)
        ensures
            r@ == spec_features(*self),
            r@.len() == 6,
    {
        let mut r: Vec<i64> = Vec::new();
        r.push(self.open);
        r.push(self.high);
        r.push(self.low);
        r.push(self.adj_close);
        r.push(self.close);
        r.push(self.volume);
        proof {
            assert(r@ =~= spec_features(*self));
        }
        r
    }

    /// The record's label as a tagged value; `Predict` marks the one record
    /// that must never be scored as a training example.
    pub fn get_label(&self) -> (r: Tomorrow)
        ensures
            r == self.tomorrow,
    {
        self.tomorrow
    }

    pub fn get_open(&self) -> (r: i64)
        ensures
            r == self.open,
    {
        self.open
    }

    pub fn get_close(&self) -> (r: i64)
        ensures
            r == self.close,
    {
        self.close
    }

    pub fn set_tomorrow(&mut self, tomorrow: Tomorrow)
        ensures
            final(self).tomorrow == tomorrow,
            final(self).date == old(self).date,
            final(self).open == old(self).open,
            final(self).high == old(self).high,
            final(self).low == old(self).low,
            final(self).close == old(self).close,
            final(self).adj_close == old(self).adj_close,
            final(self).volume == old(self).volume,
    {
        self.tomorrow = tomorrow;
    }
}

} // verus!
