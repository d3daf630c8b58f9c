use watchprice::currency::{
    currency_to_symbol, extract_currency_to_usd, symbol_to_currency, CurrencyRateTable,
    CurrencyRates, RatePoint,
};
use watchprice::WatchIdError;

#[test]
fn extract_currency() {
    // // test extra strings before and after currency value
    // assert_eq!(
    //     currency::extract_currency("before 42.32 USD").ok(),
    //     Some(("USD", "42.32".to_owned()))
    // );
    // assert_eq!(
    //     currency::extract_currency("42.32 USD after").ok(),
    //     Some(("USD", "42.32".to_owned()))
    // );
    // // test extracting currency code
    // assert_eq!(
    //     currency::extract_currency("42.32 usd").ok(),
    //     Some(("USD", "42.32".into()))
    // );
    // assert_eq!(
    //     currency::extract_currency("42.32 USD").ok(),
    //     Some(("USD", "42.32".into()))
    // );
}

#[test]
fn currency() {
    //assert_eq!(c_usd1, 4232);
}

#[test]
fn extract_currency_sign_before_amount() {
    let m = watchprice::currency::extract_currency("asking $42.32 obo").unwrap();
    assert_eq!(m.code, "usd");
    assert_eq!(m.symbol, '$');
    assert_eq!(m.amount, "42.32");
}

#[test]
fn extract_currency_amount_before_sign() {
    let m = watchprice::currency::extract_currency("price 1.250.000 € shipped").unwrap();
    assert_eq!(m.code, "eur");
    assert_eq!(m.amount, "1.250.000");
}

#[test]
fn extract_currency_letter_codes_match_any_case() {
    let m = watchprice::currency::extract_currency("selling for 42.32 USD").unwrap();
    assert_eq!(m.code, "usd");
    assert_eq!(m.symbol, '$');
    assert_eq!(m.amount, "42.32");
    let m2 = watchprice::currency::extract_currency("eur 999 firm").unwrap();
    assert_eq!(m2.code, "eur");
    assert_eq!(m2.amount, "999");
}

#[test]
fn extract_currency_fails_without_code_or_sign() {
    assert_eq!(
        watchprice::currency::extract_currency("no money mentioned here"),
        Err(WatchIdError::Currency)
    );
    // a matched alternative outside the code/sign table yields nothing
    assert_eq!(
        watchprice::currency::extract_currency("5000 TRL"),
        Err(WatchIdError::Currency)
    );
}

#[test]
fn code_sign_table_round() {
    assert_eq!(currency_to_symbol("usd"), Some('$'));
    assert_eq!(currency_to_symbol("try"), Some('₺'));
    assert_eq!(currency_to_symbol("xxx"), None);
    assert_eq!(symbol_to_currency("$"), Some("usd".to_string()));
    assert_eq!(symbol_to_currency("per ₺ sure"), Some("try".to_string()));
    assert_eq!(symbol_to_currency("none"), None);
}

fn table() -> CurrencyRateTable {
    vec![
        CurrencyRates {
            code: "usd".to_string(),
            rates: vec![RatePoint {
                timestamp: 1000,
                rate_micro: 1_000_000,
            }],
        },
        CurrencyRates {
            code: "eur".to_string(),
            rates: vec![
                RatePoint {
                    timestamp: 100,
                    rate_micro: 2_000_000,
                },
                RatePoint {
                    timestamp: 200,
                    rate_micro: 500_000,
                },
            ],
        },
    ]
}

#[test]
fn usd_conversion_is_exact() {
    let t = table();
    assert_eq!(extract_currency_to_usd(1000, "$42.32", &t), Ok(4232));
}

#[test]
fn exact_timestamp_uses_that_rate() {
    // rate tables indexed by timestamp: at an exact timestamp the
    // distance-zero entry's rate applies
    let t = table();
    // at 200, rate 0.5: 10 EUR -> 20 USD
    assert_eq!(extract_currency_to_usd(200, "€10", &t), Ok(2000));
    // at 100, rate 2.0: 10 EUR -> 5 USD
    assert_eq!(extract_currency_to_usd(100, "€10", &t), Ok(500));
    // nearer to 200 than to 100
    assert_eq!(extract_currency_to_usd(190, "€10", &t), Ok(2000));
}

#[test]
fn missing_code_is_conversion_rate_error() {
    let t = table();
    assert_eq!(
        extract_currency_to_usd(100, "£10", &t),
        Err(WatchIdError::ConversionRate)
    );
}

#[test]
fn no_mention_is_currency_error() {
    let t = table();
    assert_eq!(
        extract_currency_to_usd(100, "mint condition", &t),
        Err(WatchIdError::Currency)
    );
}

#[test]
fn oversized_result_is_currency_error() {
    let t = table();
    assert_eq!(
        extract_currency_to_usd(1000, "$99999999999999999999", &t),
        Err(WatchIdError::Currency)
    );
}
