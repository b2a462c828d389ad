//! The daily cross-market table: rows as columns, and back.
use vstd::prelude::*;
use crate::calendar::{date_string_from_day_index, date_text, day_in_range};
use crate::number::Real;

verus! {

/// One day of cross-market aggregates.
#[derive(Debug)]
pub struct LeadLagRow {
    /// UTC date, `YYYY-MM-DD`.
    pub date: String,
    pub ibit_iv_atm: Real,
    pub deribit_iv_atm: Real,
    pub ibit_net_delta: Real,
    pub deribit_net_delta: Real,
    pub iv_divergence: Real,
    /// `None` while the overlap is too short.
    pub flow_corr_lag0: Option<Real>,
    pub flow_corr_lag1: Option<Real>,
    pub flow_corr_lag2: Option<Real>,
}

/// What a row says.
pub struct LeadLagView {
    pub date: Seq<char>,
    pub ibit_iv_atm: Real,
    pub deribit_iv_atm: Real,
    pub ibit_net_delta: Real,
    pub deribit_net_delta: Real,
    pub iv_divergence: Real,
    pub lags: (Option<Real>, Option<Real>, Option<Real>),
}

impl LeadLagRow {
    pub open spec fn says(self) -> LeadLagView {
        LeadLagView {
            date: self.date@,
            ibit_iv_atm: self.ibit_iv_atm,
            deribit_iv_atm: self.deribit_iv_atm,
            ibit_net_delta: self.ibit_net_delta,
            deribit_net_delta: self.deribit_net_delta,
            iv_divergence: self.iv_divergence,
            lags: (self.flow_corr_lag0, self.flow_corr_lag1, self.flow_corr_lag2),
        }
    }
}

/// What rows say.
pub open spec fn leadlag_views(v: Seq<LeadLagRow>) -> Seq<LeadLagView> {
    Seq::new(v.len(), |i: int| v[i].says())
}

/// The columns of the table; a number that is not finite is null.
pub struct LeadLagColumns {
    pub date: Vec<String>,
    pub ibit_iv_atm: Vec<Option<Real>>,
    pub deribit_iv_atm: Vec<Option<Real>>,
    pub ibit_net_delta: Vec<Option<Real>>,
    pub deribit_net_delta: Vec<Option<Real>>,
    pub iv_divergence: Vec<Option<Real>>,
    pub flow_corr_lag0: Vec<Option<Real>>,
    pub flow_corr_lag1: Vec<Option<Real>>,
    pub flow_corr_lag2: Vec<Option<Real>>,
}

/// `x`, if it is finite.
pub open spec fn finite_only(x: Real) -> Option<Real> {
    if x.finite() {
        Some(x)
    } else {
        None
    }
}

/// `x`, if it is finite.
pub fn opt(x: Real) -> (r: Option<Real>)
    ensures
        r == finite_only(x),
{
    if x.is_finite() {
        Some(x)
    } else {
        None
    }
}

impl LeadLagColumns {
    /// All columns have the same length.
    pub open spec fn wf(&self) -> bool {
        let n = self.date@.len();
        &&& self.ibit_iv_atm@.len() == n
        &&& self.deribit_iv_atm@.len() == n
        &&& self.ibit_net_delta@.len() == n
        &&& self.deribit_net_delta@.len() == n
        &&& self.iv_divergence@.len() == n
        &&& self.flow_corr_lag0@.len() == n
        &&& self.flow_corr_lag1@.len() == n
        &&& self.flow_corr_lag2@.len() == n
    }

    /// The columns hold the rows.
    pub open spec fn holds(&self, rows: Seq<LeadLagView>) -> bool {
        &&& self.wf()
        &&& self.date@.len() == rows.len()
        &&& forall|i: int| 0 <= i < rows.len() ==> self.holds_row(i, #[trigger] rows[i])
    }

    /// Slot `i` of every column is that of `row`.
    pub open spec fn holds_row(&self, i: int, row: LeadLagView) -> bool {
        &&& self.date@[i]@ == row.date
        &&& self.ibit_iv_atm@[i] == finite_only(row.ibit_iv_atm)
        &&& self.deribit_iv_atm@[i] == finite_only(row.deribit_iv_atm)
        &&& self.ibit_net_delta@[i] == finite_only(row.ibit_net_delta)
        &&& self.deribit_net_delta@[i] == finite_only(row.deribit_net_delta)
        &&& self.iv_divergence@[i] == finite_only(row.iv_divergence)
        &&& self.flow_corr_lag0@[i] == row.lags.0
        &&& self.flow_corr_lag1@[i] == row.lags.1
        &&& self.flow_corr_lag2@[i] == row.lags.2
    }
}

/// The rows as columns.
pub fn write_leadlag(rows: &Vec<LeadLagRow>) -> (c: LeadLagColumns)
    ensures
        c.holds(leadlag_views(rows@)),
{
    let mut c = LeadLagColumns {
        date: Vec::new(),
        ibit_iv_atm: Vec::new(),
        deribit_iv_atm: Vec::new(),
        ibit_net_delta: Vec::new(),
        deribit_net_delta: Vec::new(),
        iv_divergence: Vec::new(),
        flow_corr_lag0: Vec::new(),
        flow_corr_lag1: Vec::new(),
        flow_corr_lag2: Vec::new(),
    };
    let ghost views = leadlag_views(rows@);
    let mut i: usize = 0;
    while i < rows.len()
        invariant
            i <= rows@.len(),
            views == leadlag_views(rows@),
            c.wf(),
            c.date@.len() == i,
            forall|k: int| 0 <= k < i ==> c.holds_row(k, #[trigger] views[k]),
        decreases rows@.len() - i,
    {
        let r = &rows[i];
        assert(views[i as int] == r.says());
        c.date.push(r.date.clone());
        c.ibit_iv_atm.push(opt(r.ibit_iv_atm));
        c.deribit_iv_atm.push(opt(r.deribit_iv_atm));
        c.ibit_net_delta.push(opt(r.ibit_net_delta));
        c.deribit_net_delta.push(opt(r.deribit_net_delta));
        c.iv_divergence.push(opt(r.iv_divergence));
        c.flow_corr_lag0.push(r.flow_corr_lag0);
        c.flow_corr_lag1.push(r.flow_corr_lag1);
        c.flow_corr_lag2.push(r.flow_corr_lag2);
        i = i + 1;
    }
    c
}

/// The number in a slot; a null slot holds zero.
pub open spec fn slot_value(o: Option<Real>) -> Real {
    match o {
        Some(x) => x,
        None => Real { bits: 0 },
    }
}

fn value_of(o: Option<Real>) -> (x: Real)
    ensures
        x == slot_value(o),
{
    match o {
        Some(x) => x,
        None => Real { bits: 0 },
    }
}

/// `r` is the row in slot `i`.
pub open spec fn is_slot(r: LeadLagRow, c: LeadLagColumns, i: int) -> bool {
    &&& r.date@ == c.date@[i]@
    &&& r.ibit_iv_atm == slot_value(c.ibit_iv_atm@[i])
    &&& r.deribit_iv_atm == slot_value(c.deribit_iv_atm@[i])
    &&& r.ibit_net_delta == slot_value(c.ibit_net_delta@[i])
    &&& r.deribit_net_delta == slot_value(c.deribit_net_delta@[i])
    &&& r.iv_divergence == slot_value(c.iv_divergence@[i])
    &&& r.flow_corr_lag0 == c.flow_corr_lag0@[i]
    &&& r.flow_corr_lag1 == c.flow_corr_lag1@[i]
    &&& r.flow_corr_lag2 == c.flow_corr_lag2@[i]
}

/// The columns as rows. A missing correlation stays missing.
pub fn read_leadlag(c: &LeadLagColumns) -> (rows: Vec<LeadLagRow>)
    requires
        c.wf(),
    ensures
        rows@.len() == c.date@.len(),
        forall|i: int| 0 <= i < rows@.len() ==> is_slot(#[trigger] rows@[i], *c, i),
{
    let mut rows: Vec<LeadLagRow> = Vec::new();
    let mut i: usize = 0;
    while i < c.date.len()
        invariant
            c.wf(),
            i <= c.date@.len(),
            rows@.len() == i,
            forall|k: int| 0 <= k < i ==> is_slot(#[trigger] rows@[k], *c, k),
        decreases c.date@.len() - i,
    {
        rows.push(
            LeadLagRow {
                date: c.date[i].clone(),
                ibit_iv_atm: value_of(c.ibit_iv_atm[i]),
                deribit_iv_atm: value_of(c.deribit_iv_atm[i]),
                ibit_net_delta: value_of(c.ibit_net_delta[i]),
                deribit_net_delta: value_of(c.deribit_net_delta[i]),
                iv_divergence: value_of(c.iv_divergence[i]),
                flow_corr_lag0: c.flow_corr_lag0[i],
                flow_corr_lag1: c.flow_corr_lag1[i],
                flow_corr_lag2: c.flow_corr_lag2[i],
            },
        );
        i = i + 1;
    }
    rows
}

/// A row of finite numbers reads back as it was written, with its missing
/// correlations missing.
pub proof fn law_leadlag_round_trip(row: LeadLagRow, c: LeadLagColumns, i: int, back: LeadLagRow)
    requires
        c.holds_row(i, row.says()),
        is_slot(back, c, i),
        row.ibit_iv_atm.finite(),
        row.deribit_iv_atm.finite(),
        row.ibit_net_delta.finite(),
        row.deribit_net_delta.finite(),
        row.iv_divergence.finite(),
    ensures
        back.says() == row.says(),
{
}

/// The close of one paired day.
#[derive(Clone, Copy, Debug, PartialEq, Eq, Structural)]
pub struct DayClose {
    /// UTC day index.
    pub date: i64,
    pub ibit_iv: Real,
    pub deriv_iv: Real,
    pub ibit_net_delta: Real,
    pub deriv_net_delta: Real,
    /// The difference of the two closing volatilities.
    pub divergence: Real,
    /// Correlations at lags 0 to 2 as of this day, where computable.
    pub corr0: Option<Real>,
    pub corr1: Option<Real>,
    pub corr2: Option<Real>,
}

/// Whether the day's closing volatilities are usable.
pub open spec fn usable(c: DayClose) -> bool {
    c.ibit_iv.finite() && c.deriv_iv.finite()
}

/// The row of a day.
pub open spec fn row_of_close(c: DayClose) -> LeadLagView {
    LeadLagView {
        date: date_text(c.date as int),
        ibit_iv_atm: c.ibit_iv,
        deribit_iv_atm: c.deriv_iv,
        ibit_net_delta: c.ibit_net_delta,
        deribit_net_delta: c.deriv_net_delta,
        iv_divergence: c.divergence,
        lags: (c.corr0, c.corr1, c.corr2),
    }
}

/// The rows of the usable days, in order.
pub open spec fn rows_of_closes(closes: Seq<DayClose>) -> Seq<LeadLagView>
    decreases closes.len(),
{
    if closes.len() == 0 {
        Seq::empty()
    } else {
        let before = rows_of_closes(closes.drop_last());
        if usable(closes.last()) {
            before.push(row_of_close(closes.last()))
        } else {
            before
        }
    }
}

/// One row for each completed day whose closing volatilities are usable.
pub fn build_rows(closes: &Vec<DayClose>) -> (rows: Vec<LeadLagRow>)
    requires
        forall|i: int|
            0 <= i < closes@.len() ==> day_in_range((#[trigger] closes@[i]).date as int),
    ensures
        leadlag_views(rows@) == rows_of_closes(closes@),
{
    let mut rows: Vec<LeadLagRow> = Vec::new();
    let mut i: usize = 0;
    assert(leadlag_views(rows@) =~= rows_of_closes(closes@.take(0)));
    while i < closes.len()
        invariant
            i <= closes@.len(),
            forall|i: int|
                0 <= i < closes@.len() ==> day_in_range((#[trigger] closes@[i]).date as int),
            leadlag_views(rows@) == rows_of_closes(closes@.take(i as int)),
        decreases closes@.len() - i,
    {
        let c = closes[i];
        assert(closes@.take(i + 1).drop_last() =~= closes@.take(i as int));
        assert(closes@[i as int] == c);
        if c.ibit_iv.is_finite() && c.deriv_iv.is_finite() {
            let row = LeadLagRow {
                date: date_string_from_day_index(c.date),
                ibit_iv_atm: c.ibit_iv,
                deribit_iv_atm: c.deriv_iv,
                ibit_net_delta: c.ibit_net_delta,
                deribit_net_delta: c.deriv_net_delta,
                iv_divergence: c.divergence,
                flow_corr_lag0: c.corr0,
                flow_corr_lag1: c.corr1,
                flow_corr_lag2: c.corr2,
            };
            let ghost r0 = rows@;
            let ghost v = row.says();
            rows.push(row);
            assert(leadlag_views(rows@) =~= leadlag_views(r0).push(v));
        }
        i = i + 1;
    }
    assert(closes@.take(i as int) =~= closes@);
    rows
}

/// A row stands for each close whose two volatilities are finite, in order,
/// with its own numbers.
pub proof fn law_rows_of_closes(closes: Seq<DayClose>)
    ensures
        ({
            let kept = closes.filter(|c: DayClose| c.ibit_iv.finite() && c.deriv_iv.finite());
            let rows = rows_of_closes(closes);
            &&& rows.len() == kept.len()
            &&& forall|i: int|
                0 <= i < kept.len() ==> {
                    &&& (#[trigger] rows[i]).date == date_text(kept[i].date as int)
                    &&& rows[i].ibit_iv_atm == kept[i].ibit_iv
                    &&& rows[i].deribit_iv_atm == kept[i].deriv_iv
                    &&& rows[i].ibit_net_delta == kept[i].ibit_net_delta
                    &&& rows[i].deribit_net_delta == kept[i].deriv_net_delta
                    &&& rows[i].iv_divergence == kept[i].divergence
                    &&& rows[i].lags == (kept[i].corr0, kept[i].corr1, kept[i].corr2)
                }
        }),
    decreases closes.len(),
{
    reveal(Seq::filter);
    if closes.len() > 0 {
        law_rows_of_closes(closes.drop_last());
    }
}

/// A column holds a finite number as it is and leaves its slot empty for any
/// other; an empty slot is read as zero.
pub proof fn law_slots(x: Real)
    ensures
        x.finite() ==> slot_value(finite_only(x)) == x,
        !x.finite() ==> finite_only(x) is None && slot_value(finite_only(x)) == (Real { bits: 0 }),
{
}

} // verus!
