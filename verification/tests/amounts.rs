use zettelwirtschaft::Amount;
use zettelwirtschaft::Error;

#[test]
fn add_grams() {
    let amount = Amount::parse("200g").unwrap().add(Amount::parse("1.5kg").unwrap()).unwrap();
    assert_eq!(Amount::Grams(1700), amount);
}

#[test]
fn added_grams_display_as_kilograms() {
    let amount = Amount::parse("200g").unwrap().add(Amount::parse("1.5kg").unwrap()).unwrap();
    assert_eq!(amount.render(), "1.7kg");
}

#[test]
fn parse_units() {
    assert_eq!(Amount::parse("500g").unwrap(), Amount::Grams(500));
    assert_eq!(Amount::parse("1.5kg").unwrap(), Amount::Grams(1500));
    assert_eq!(Amount::parse("500ml").unwrap(), Amount::Millis(500));
    assert_eq!(Amount::parse("2l").unwrap(), Amount::Millis(2000));
    assert_eq!(Amount::parse("2.5l").unwrap(), Amount::Millis(2500));
    assert_eq!(Amount::parse("5").unwrap(), Amount::Count(5));
    assert_eq!(Amount::parse("0.5kg").unwrap(), Amount::Grams(500));
    assert_eq!(Amount::parse("1.2345kg").unwrap(), Amount::Grams(1234));
}

#[test]
fn parse_rejects_non_amounts() {
    assert_eq!(Amount::parse("abc"), Err(Error::Parse));
    assert_eq!(Amount::parse(""), Err(Error::Parse));
    assert_eq!(Amount::parse("1.2.3g"), Err(Error::Parse));
    assert_eq!(Amount::parse("g"), Err(Error::Parse));
    assert_eq!(Amount::parse("12x"), Err(Error::Parse));
}

#[test]
fn render_parse_round_trip_keeps_magnitude() {
    let samples = vec![
        Amount::Count(5),
        Amount::Grams(500),
        Amount::Grams(1000),
        Amount::Grams(1700),
        Amount::Grams(1234),
        Amount::Millis(999),
        Amount::Millis(2500),
        Amount::Millis(30000),
    ];
    for a in samples {
        let text = a.render();
        assert_eq!(Amount::parse(text.as_str()).unwrap(), a);
    }
}

#[test]
fn parsed_strings_round_trip_on_value() {
    for s in vec!["500g", "1.5kg", "2l", "500ml", "7", "1700g", "2500ml"] {
        let a = Amount::parse(s).unwrap();
        let b = Amount::parse(a.render().as_str()).unwrap();
        assert_eq!(a, b);
    }
}

#[test]
fn add_is_commutative_same_kind() {
    let a = Amount::Grams(200);
    let b = Amount::Grams(1500);
    assert_eq!(a.add(b).unwrap(), b.add(a).unwrap());
    let c = Amount::Count(2);
    let d = Amount::Count(3);
    assert_eq!(c.add(d).unwrap(), d.add(c).unwrap());
}

#[test]
fn add_is_associative_same_kind() {
    let a = Amount::Millis(100);
    let b = Amount::Millis(200);
    let c = Amount::Millis(300);
    let left = a.add(b).unwrap().add(c).unwrap();
    let right = a.add(b.add(c).unwrap()).unwrap();
    assert_eq!(left, right);
}

#[test]
fn cross_kind_add_always_fails() {
    assert!(Amount::Grams(1).add(Amount::Millis(1)).is_err());
    assert!(Amount::Grams(1).add(Amount::Count(1)).is_err());
    assert!(Amount::Count(1).add(Amount::Millis(1)).is_err());
    assert!(Amount::Millis(1).add(Amount::Grams(1)).is_err());
}

#[test]
fn small_magnitudes_keep_the_small_unit() {
    assert_eq!(Amount::Grams(999).render(), "999g");
    assert_eq!(Amount::Millis(999).render(), "999ml");
    assert_eq!(Amount::Grams(1000).render(), "1kg");
    assert_eq!(Amount::Millis(1000).render(), "1l");
    assert_eq!(Amount::Count(12).render(), "12");
}
