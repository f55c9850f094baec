use zbus::{BusName, Error, OwnedBusName, UniqueName, WellKnownName};

#[test]
fn unique_name_parses() {
    let name = BusName::try_from(":a.very.loooooooooooooooooo-ooooooo_0000o0ng.Name").unwrap();
    assert!(matches!(name, BusName::Unique(_)));
    assert_eq!(name.as_str(), ":a.very.loooooooooooooooooo-ooooooo_0000o0ng.Name");
}

#[test]
fn well_known_name_parses() {
    let name = BusName::try_from("org.gnome.Service-for_you").unwrap();
    assert!(matches!(name, BusName::WellKnown(_)));
    assert_eq!(name.as_str(), "org.gnome.Service-for_you");

    let name = BusName::try_from("a.very.loooooooooooooooooo-ooooooo_0000o0ng.Name").unwrap();
    assert!(matches!(name, BusName::WellKnown(_)));
}

#[test]
fn unique_classification_wins_on_colon() {
    assert!(matches!(BusName::try_from(":x.y").unwrap(), BusName::Unique(_)));
    assert!(matches!(BusName::try_from("x.y").unwrap(), BusName::WellKnown(_)));
    // Unique names may start elements with digits.
    assert!(matches!(BusName::try_from(":1.7").unwrap(), BusName::Unique(_)));
}

#[test]
fn invalid_names_fail() {
    for bad in ["", ".", ".a.b", "1a.b", "no-dots", "a..b", "double..dots", ".start.with.dot"] {
        match BusName::try_from(bad).unwrap_err() {
            Error::InvalidBusName(_, _) => {}
            _ => panic!("expected a compound bus-name error for {:?}", bad),
        }
    }
}

#[test]
fn compound_error_carries_both_diagnostics() {
    match BusName::try_from("no-dots").unwrap_err() {
        Error::InvalidBusName(u, w) => {
            assert_eq!(u, "invalid unique bus name: no-dots");
            assert_eq!(w, "invalid well-known bus name: no-dots");
        }
        _ => panic!(),
    }
}

#[test]
fn length_cap_is_enforced() {
    let mut long = String::from("a.");
    long.push_str(&"b".repeat(254));
    assert!(BusName::try_from(long.as_str()).is_err());
    let mut ok = String::from("a.");
    ok.push_str(&"b".repeat(253));
    assert!(BusName::try_from(ok.as_str()).is_ok());
}

#[test]
fn owned_and_borrowed_forms_agree() {
    let name = BusName::try_from(":x.y").unwrap();
    let copy = name.to_owned();
    assert_eq!(copy.as_str(), ":x.y");
    let owned = OwnedBusName::new(name.into_owned());
    assert_eq!(owned.into_inner().as_str(), ":x.y");
}

#[test]
fn single_name_validators_work_standalone() {
    assert_eq!(UniqueName::try_from(":u.v").unwrap().as_str(), ":u.v");
    assert!(UniqueName::try_from("u.v").is_err());
    assert_eq!(WellKnownName::try_from("u.v").unwrap().as_str(), "u.v");
    assert!(WellKnownName::try_from(":u.v").is_err());
    let u = UniqueName::try_from(":u.v").unwrap();
    assert_eq!(u.to_owned().as_str(), ":u.v");
    let w = WellKnownName::try_from("u.v").unwrap();
    assert_eq!(w.to_owned().as_str(), "u.v");
}

#[test]
fn names_travel_through_string_variants() {
    let name = BusName::try_from(":x.y").unwrap();
    let v = name.to_variant();
    let back = BusName::try_from_variant(&v).unwrap();
    assert!(matches!(back, BusName::Unique(_)));
    assert_eq!(back.as_str(), ":x.y");
    match BusName::try_from_variant(&zbus::Variant::Byte(1)).unwrap_err() {
        Error::Variant(zbus::VariantError::IncorrectType) => {}
        _ => panic!(),
    }
}
