use fraud_detection::vectorize::{
    find_place, vectorize, Customer, Dimension, LastTransaction, Merchant, Terminal, Transaction,
    TransactionPayload,
};

fn payload(merchant: &str, last: Option<&str>) -> TransactionPayload {
    TransactionPayload {
        transaction: Transaction { requested_at: "2026-03-11T18:45:53Z".to_string() },
        customer: Customer {
            known_merchants: vec!["MERC-003".to_string(), "MERC-016".to_string()],
        },
        merchant: Merchant { id: merchant.to_string(), mcc: "5411".to_string() },
        terminal: Terminal { is_online: false, card_present: true },
        last_transaction: last.map(|t| LastTransaction { timestamp: t.to_string() }),
    }
}

fn strings(texts: &[&str]) -> Vec<String> {
    texts.iter().map(|t| t.to_string()).collect()
}

fn clamp01(x: f64) -> f32 {
    x.clamp(0.0, 1.0) as f32
}

#[test]
fn test_vectorize_legit_example() {
    let (max_amount, max_installments, amount_vs_avg_ratio) = (10000.0, 12.0, 10.0);
    let (max_minutes, max_km, max_tx_count_24h) = (1440.0, 1000.0, 20.0);
    let max_merchant_avg_amount = 10000.0;

    let mcc_codes = vec!["5411".to_string()];
    let mcc_risks = vec![0.15f64];

    let (amount, installments) = (41.12, 2.0);
    let (customer_avg_amount, tx_count_24h) = (82.24, 3.0);
    let merchant_avg_amount = 60.25;
    let km_from_home = 29.23;

    let payload = TransactionPayload {
        transaction: Transaction { requested_at: "2026-03-11T18:45:53Z".to_string() },
        customer: Customer {
            known_merchants: vec!["MERC-003".to_string(), "MERC-016".to_string()],
        },
        merchant: Merchant { id: "MERC-016".to_string(), mcc: "5411".to_string() },
        terminal: Terminal { is_online: false, card_present: true },
        last_transaction: None,
    };
    assert!(payload.times_are_readable());

    let dims = vectorize(&payload, &mcc_codes);
    let vec: Vec<f32> = dims
        .iter()
        .map(|dim| match *dim {
            Dimension::Amount => clamp01(amount / max_amount),
            Dimension::Installments => clamp01(installments / max_installments),
            Dimension::AmountVsAverage => {
                clamp01((amount / customer_avg_amount) / amount_vs_avg_ratio)
            }
            Dimension::Hour(hour) => hour as f32 / 23.0,
            Dimension::Weekday(dow) => dow as f32 / 6.0,
            Dimension::SecondsSinceLast(seconds) => clamp01(seconds as f64 / 60.0 / max_minutes),
            Dimension::KmFromLast => panic!("there was no last transaction"),
            Dimension::Missing => -1.0,
            Dimension::KmFromHome => clamp01(km_from_home / max_km),
            Dimension::TransactionCount => clamp01(tx_count_24h / max_tx_count_24h),
            Dimension::Flag(yes) => {
                if yes {
                    1.0
                } else {
                    0.0
                }
            }
            Dimension::MccRisk(Some(i)) => mcc_risks[i] as f32,
            Dimension::MccRisk(None) => 0.5,
            Dimension::MerchantAverage => clamp01(merchant_avg_amount / max_merchant_avg_amount),
        })
        .collect();

    // Expected: [0.0041, 0.1667, 0.05, 0.7826, 0.3333, -1, -1, 0.0292, 0.15, 0, 1, 0, 0.15, 0.006]
    let expected = [
        0.0041f32, 0.1667, 0.05, 0.7826, 0.3333, -1.0, -1.0, 0.0292, 0.15, 0.0, 1.0, 0.0, 0.15,
        0.006,
    ];

    for i in 0..14 {
        assert!(
            (vec[i] - expected[i]).abs() < 0.01,
            "dim {} mismatch: got {} expected {}",
            i,
            vec[i],
            expected[i]
        );
    }
}

#[test]
fn the_last_transaction_and_an_unknown_merchant() {
    let p = payload("MERC-017", Some("2026-03-11T14:58:35Z"));
    assert!(p.times_are_readable());
    let dims = vectorize(&p, &strings(&["5812", "7995"]));
    assert!(matches!(dims[5], Dimension::SecondsSinceLast(13638)));
    assert!(matches!(dims[6], Dimension::KmFromLast));
    assert!(matches!(dims[11], Dimension::Flag(true)));
    assert!(matches!(dims[12], Dimension::MccRisk(None)));
}

#[test]
fn places() {
    let texts = strings(&["a", "b", "a", "\u{e9}"]);
    assert_eq!(find_place(&texts, &"a".to_string()), Some(0));
    assert_eq!(find_place(&texts, &"b".to_string()), Some(1));
    assert_eq!(find_place(&texts, &"\u{e9}".to_string()), Some(3));
    assert_eq!(find_place(&texts, &"".to_string()), None);
    assert_eq!(find_place(&Vec::new(), &"a".to_string()), None);
}

#[test]
fn times_that_cannot_be_read() {
    let mut p = payload("MERC-016", Some("yesterday"));
    assert!(!p.times_are_readable());
    p.last_transaction = None;
    assert!(p.times_are_readable());
    p.transaction.requested_at = "2026-03-11T18".to_string();
    assert!(p.times_are_readable());
    p.last_transaction = Some(LastTransaction { timestamp: "2026-03-11T14:58:35Z".to_string() });
    assert!(!p.times_are_readable());
}
