use watchprice::identify::{find_brand, find_model_no, BrandEntry, BrandTable};
use watchprice::tokenize::tokenize_watch_info;

const TEST_DATA: &[[&str; 3]] = &[
    [
        "FS: Panerai Luminor Marina TuttoGrigio Titanium & Carbotech PAM01662",
        "pam01662",
        "Panerai",
    ],
    [
        "FS: Patek Philippe Complications Chronograph 5172G-001",
        "5172g-001",
        "Patek Philippe",
    ],
    [
        "FS: IWC Big Pilots TOP GUN Ceratanium Double Chrono IW371815",
        "iw371815",
        "IWC",
    ],
    ["Omega speedmaster nib", "", "Omega"],
    [
        "FS: IWC Portuguese Yacht Club Chronograph Certified Steel Black 45mm IW390204 Rubber",
        "iw390204",
        "IWC",
    ],
    [
        "FSOT: A. Lange & Sohne LANGE 1 191.032 ROSE GOLD 38.5MM 2023 WARRANTY FULL SET",
        "191.032",
        "A. Lange & Söhne",
    ],
    [
        "Cartier Tortue Certified Large 18k Rose Gold Factory Diamonds 43mm WA503951 2498",
        "wa503951",
        "Cartier",
    ],
    [
        "FS: Cartier Tank Solo Certified XL 18k Rose Gold Steel W5200026 3799 Automatic",
        "w5200026",
        "Cartier",
    ],
    ["FS: Heuer Autavia Valjoux Circa 1972 73663", "73663", "Heuer"],
    [
        "FS: 2023 126508 Rolex Daytona Yellow Gold \"Pikachu\" EXCELLENT CONDITON/COMPLETE SET",
        "126508",
        "Rolex",
    ],
    [
        "Tudor Black Bay Heritage 41mm | 79230R - Full Set",
        "79230r",
        "TUDOR",
    ],
    [
        "FS: ROLEX 79160 Ladies Steel Date Silver Index",
        "79160",
        "Rolex",
    ],
    [
        "FSOT: Rolex 126300 DATEJUST 41 BLUE STICK DIAL JUBILEE BAND 2024 COMPLETE SET",
        "126300",
        "Rolex",
    ],
];

/// The brand table as the build step produces it: each brand's token
/// set is the tokenization of its display name.
fn brand_table() -> BrandTable {
    let brands = [
        "A. Lange & Söhne",
        "Audemars Piguet",
        "Breitling",
        "Cartier",
        "Grand Seiko",
        "Heuer",
        "IWC",
        "Jaeger-LeCoultre",
        "Omega",
        "Panerai",
        "Patek Philippe",
        "Rolex",
        "Seiko",
        "TUDOR",
        "Vacheron Constantin",
        "Zenith",
    ];
    brands
        .iter()
        .map(|b| BrandEntry {
            name: b.to_string(),
            tokens: tokenize_watch_info(b),
        })
        .collect()
}

#[test]
fn model_no() {
    let empty = String::new();

    for &[s, b, _] in TEST_DATA {
        let t = tokenize_watch_info(s);
        let a = find_model_no(&t).unwrap_or(empty.clone());

        assert_eq!(&*a, b);
    }
}

#[test]
fn brand_name() {
    let table = brand_table();
    let empty = String::new();

    for &[s, _, b] in TEST_DATA {
        let t = tokenize_watch_info(s);
        let a = find_brand(&t, &table).unwrap_or(empty.clone());

        assert_eq!(a, b);
    }
}

#[test]
fn brand_not_found_error() {
    let table = brand_table();
    let t = tokenize_watch_info("some unremarkable text");
    assert_eq!(
        find_brand(&t, &table),
        Err(watchprice::WatchIdError::Brand)
    );
}

#[test]
fn model_no_not_found_error() {
    let t = tokenize_watch_info("Omega speedmaster nib");
    assert_eq!(
        find_model_no(&t),
        Err(watchprice::WatchIdError::ModelNo)
    );
}

#[test]
fn year_is_not_a_model_no() {
    let t = tokenize_watch_info("2023");
    assert!(find_model_no(&t).is_err());
    let t2 = tokenize_watch_info("1899");
    assert_eq!(find_model_no(&t2).unwrap(), "1899");
}

#[test]
fn repeated_tokens_cap_match_fraction() {
    let table = brand_table();
    let t = tokenize_watch_info("lange lange lange");
    // three matches against a three-token set: capped fraction one
    assert_eq!(find_brand(&t, &table).unwrap(), "A. Lange & Söhne");
}
