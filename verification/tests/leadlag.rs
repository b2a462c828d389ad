use mp_research::calendar::date_string_from_day_index;
use mp_research::ibit_leadlag::{build_rows, read_leadlag, write_leadlag, DayClose, LeadLagRow};
use mp_research::number::Real;

fn r(x: f64) -> Real {
    Real { bits: x.to_bits() }
}

#[test]
fn ibi_10_leadlag_table_roundtrip_with_null_correlations() {
    let rows = vec![
        LeadLagRow {
            date: "2026-08-21".into(),
            ibit_iv_atm: r(0.62),
            deribit_iv_atm: r(0.55),
            ibit_net_delta: r(50_000.0),
            deribit_net_delta: r(40.0),
            iv_divergence: r(0.07),
            flow_corr_lag0: None, // below overlap minimum: null, not 0
            flow_corr_lag1: None,
            flow_corr_lag2: None,
        },
        LeadLagRow {
            date: "2026-08-22".into(),
            ibit_iv_atm: r(0.60),
            deribit_iv_atm: r(0.58),
            ibit_net_delta: r(51_200.0),
            deribit_net_delta: r(41.5),
            iv_divergence: r(0.02),
            flow_corr_lag0: Some(r(0.42)),
            flow_corr_lag1: Some(r(0.17)),
            flow_corr_lag2: Some(r(-0.05)),
        },
    ];
    let written = write_leadlag(&rows);
    assert_eq!(written.date.len(), 2);
    let back = read_leadlag(&written);
    assert_eq!(back.len(), 2);
    assert_eq!(back[0].date, "2026-08-21");
    assert_eq!(back[0].iv_divergence, r(0.07));
    // Nulls survive as nulls: a missing correlation is not a zero.
    assert_eq!(back[0].flow_corr_lag0, None);
    assert_eq!(back[1].flow_corr_lag2, Some(r(-0.05)));
}

fn close(day: i64, ibit_iv: f64, deriv_iv: f64) -> DayClose {
    DayClose {
        date: day,
        ibit_iv: r(ibit_iv),
        deriv_iv: r(deriv_iv),
        ibit_net_delta: r(50_000.0),
        deriv_net_delta: r(40.0),
        divergence: r(ibit_iv - deriv_iv),
        corr0: None,
        corr1: None,
        corr2: None,
    }
}

#[test]
fn ibi_10_build_rows_values_null_gating_and_nan_skip() {
    // Days 1 to 3 are complete; day 4 stays open.
    let closes: Vec<DayClose> = (1..=3).map(|d| close(d, 0.40, 0.55)).collect();
    let rows = build_rows(&closes);
    assert_eq!(rows.len(), 3);
    assert_eq!(rows[0].date, "1970-01-02");
    assert_eq!(rows[1].date, "1970-01-03");
    assert_eq!(rows[2].date, "1970-01-04");
    assert_eq!(rows[0].iv_divergence, r(0.40 - 0.55));
    assert_eq!(rows[0].ibit_net_delta, r(50_000.0));
    assert_eq!(rows[0].deribit_net_delta, r(40.0));
    assert_eq!(rows[0].flow_corr_lag0, None);
}

#[test]
fn a_day_without_a_usable_close_is_skipped() {
    let closes = vec![close(1, f64::NAN, 0.5), close(2, 0.4, f64::INFINITY), close(3, 0.4, 0.5)];
    let rows = build_rows(&closes);
    assert_eq!(rows.len(), 1);
    assert_eq!(rows[0].date, "1970-01-04");
}

#[test]
fn ibi_10_date_string_from_day_index_known_values() {
    assert_eq!(date_string_from_day_index(0), "1970-01-01");
    assert_eq!(date_string_from_day_index(20_454), "2026-01-01");
    assert_eq!(date_string_from_day_index(20_484), "2026-01-31");
}
