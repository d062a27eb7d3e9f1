use zettelwirtschaft::AltNamesMapping;
use zettelwirtschaft::Amount;
use zettelwirtschaft::CatalogIssue;
use zettelwirtschaft::Config;
use zettelwirtschaft::ConfigNode;
use zettelwirtschaft::Error;
use zettelwirtschaft::ParsedLine;
use zettelwirtschaft::ShoppingList;
use zettelwirtschaft::ShoppingListState;
use zettelwirtschaft::SortedZettel;
use zettelwirtschaft::Zettel;

fn text(s: &str) -> ConfigNode {
    ConfigNode::Text(s.to_owned())
}

/// A goods catalog with one good `Milch`, alias `Vollmilch`, and one
/// merchant `Supermarkt` carrying `Milch` and `Zucker`.
fn sample_config() -> ConfigNode {
    ConfigNode::Mapping(vec![
        (
            "waren".to_owned(),
            ConfigNode::List(vec![ConfigNode::Mapping(vec![
                ("name".to_owned(), text("Milch")),
                ("alt-names".to_owned(), ConfigNode::List(vec![text("Vollmilch")])),
            ])]),
        ),
        (
            "locations".to_owned(),
            ConfigNode::List(vec![ConfigNode::Mapping(vec![
                ("name".to_owned(), text("Supermarkt")),
                ("waren".to_owned(), ConfigNode::List(vec![text("Milch"), text("Zucker")])),
            ])]),
        ),
    ])
}

#[test]
fn parse_zettel() {
    let sample = "500g Zucker\n2l Milch\n\n5 Eier\n500ml Milch";
    let zettel = Zettel::from_text(sample).unwrap();
    let sorted = SortedZettel::from_zettel(zettel, &AltNamesMapping::default()).unwrap();
    assert_eq!(sorted.items().len(), 3);
}

#[test]
fn aggregates_example_input() {
    let sample = "500g Zucker\n2l Milch\n\n5 Eier\n500ml Milch";
    let zettel = Zettel::from_text(sample).unwrap();
    let sorted = SortedZettel::from_zettel(zettel, &AltNamesMapping::default()).unwrap();
    let items = sorted.items();
    assert_eq!(items.len(), 3);
    assert_eq!(items[0].name, "Eier");
    assert_eq!(items[0].amount, Amount::Count(5));
    assert_eq!(items[1].name, "Milch");
    assert_eq!(items[1].amount, Amount::Millis(2500));
    assert_eq!(items[1].amount.render(), "2.5l");
    assert_eq!(items[2].name, "Zucker");
    assert_eq!(items[2].amount, Amount::Grams(500));
}

#[test]
fn same_name_entries_sum_to_one_item() {
    let sample = "1kg Mehl\n500g Mehl\n250g Mehl";
    let zettel = Zettel::from_text(sample).unwrap();
    let sorted = SortedZettel::from_zettel(zettel, &AltNamesMapping::default()).unwrap();
    let items = sorted.items();
    assert_eq!(items.len(), 1);
    assert_eq!(items[0].name, "Mehl");
    assert_eq!(items[0].amount, Amount::Grams(1750));
}

#[test]
fn absent_amounts_count_one_each() {
    let sample = "Brot\nBrot\nBrot";
    let zettel = Zettel::from_text(sample).unwrap();
    let sorted = SortedZettel::from_zettel(zettel, &AltNamesMapping::default()).unwrap();
    let items = sorted.items();
    assert_eq!(items.len(), 1);
    assert_eq!(items[0].amount, Amount::Count(3));
}

#[test]
fn aggregation_is_idempotent_on_aggregated_text() {
    let sample = "500g Zucker\n2l Milch\n5 Eier\n500ml Milch";
    let zettel = Zettel::from_text(sample).unwrap();
    let sorted = SortedZettel::from_zettel(zettel, &AltNamesMapping::default()).unwrap();
    let rendered = sorted.render();
    let again = Zettel::from_text(rendered.as_str()).unwrap();
    let sorted_again = SortedZettel::from_zettel(again, &AltNamesMapping::default()).unwrap();
    assert_eq!(sorted.render(), sorted_again.render());
    let a = sorted.items();
    let b = sorted_again.items();
    assert_eq!(a.len(), b.len());
    for i in 0..a.len() {
        assert_eq!(a[i].name, b[i].name);
        assert_eq!(a[i].amount, b[i].amount);
    }
}

#[test]
fn line_without_amount_keeps_whole_name() {
    let line = ParsedLine::parse("abc").unwrap();
    assert_eq!(line.amount, None);
    assert_eq!(line.name, "abc");
}

#[test]
fn line_parser_errors() {
    assert_eq!(ParsedLine::parse("   ").err().unwrap(), Error::EmptyLine);
    assert_eq!(ParsedLine::parse("").err().unwrap(), Error::EmptyLine);
    assert_eq!(ParsedLine::parse("500g").err().unwrap(), Error::MissingName);
    assert_eq!(ParsedLine::parse("500g   ").err().unwrap(), Error::MissingName);
}

#[test]
fn mixed_kinds_fail_with_the_canonical_name() {
    let sample = "1kg Milch\n1l Milch";
    let zettel = Zettel::from_text(sample).unwrap();
    let err = SortedZettel::from_zettel(zettel, &AltNamesMapping::default()).err().unwrap();
    assert_eq!(err, Error::UnitMismatch("Milch".to_owned()));
}

#[test]
fn alias_resolves_to_canonical_name() {
    let config = Config::new(sample_config());
    let mapping = config.make_alt_names_mapping().unwrap();
    assert_eq!(mapping.normalize_name("Vollmilch"), "Milch");
    assert_eq!(mapping.normalize_name("Milch"), "Milch");
    assert_eq!(mapping.normalize_name("Eier"), "Eier");

    let zettel = Zettel::from_text("1l Vollmilch").unwrap();
    let sorted = SortedZettel::from_zettel(zettel, &mapping).unwrap();
    let items = sorted.items();
    assert_eq!(items.len(), 1);
    assert_eq!(items[0].name, "Milch");
    assert_eq!(items[0].amount, Amount::Millis(1000));
}

#[test]
fn merchants_claim_their_goods_in_declared_order() {
    let config = Config::new(sample_config());
    let mapping = config.make_alt_names_mapping().unwrap();
    let zettel = Zettel::from_text("5 Eier\n1l Milch\n500g Zucker").unwrap();
    let sorted = SortedZettel::from_zettel(zettel, &mapping).unwrap();
    let list = ShoppingList::new(sorted, &config).unwrap();
    let groups = list.get_list();
    assert_eq!(groups.len(), 2);
    assert_eq!(groups[0].get_name(), "Supermarkt");
    let first = groups[0].items();
    assert_eq!(first.len(), 2);
    assert_eq!(first[0].name, "Milch");
    assert_eq!(first[1].name, "Zucker");
    assert_eq!(groups[1].get_name(), "elsewhere");
    let rest = groups[1].items();
    assert_eq!(rest.len(), 1);
    assert_eq!(rest[0].name, "Eier");
}

#[test]
fn partitioned_rendering_has_headers_and_blank_lines() {
    let mut state = ShoppingListState::new();
    state.load_config(Config::new(sample_config()));
    state.process_input("5 Eier\n1l Milch\n500g Zucker").unwrap();
    let out = state.get_plaintext_result();
    assert_eq!(
        out,
        "Supermarkt\n==========\n1l Milch\n500g Zucker\n\nelsewhere\n=========\n5 Eier\n"
    );
}

#[test]
fn state_without_config_renders_sorted_list() {
    let mut state = ShoppingListState::new();
    assert_eq!(state.get_plaintext_result(), "Nothing");
    state.process_input("500g Zucker\n2l Milch\n\n5 Eier\n500ml Milch").unwrap();
    assert_eq!(state.get_plaintext_result(), "5 Eier\n2.5l Milch\n500g Zucker\n");
}

#[test]
fn overflowing_totals_are_refused() {
    let mut state = ShoppingListState::new();
    let sample = format!("{} Eier\n{} Eier", usize::MAX, usize::MAX);
    assert_eq!(state.process_input(sample.as_str()), Err(Error::Overflow));
    assert_eq!(state.get_plaintext_result(), "Nothing");
}

#[test]
fn catalog_format_errors() {
    let bad_root = ConfigNode::Other;
    assert_eq!(
        AltNamesMapping::new(&bad_root).err().unwrap(),
        Error::CatalogFormat(CatalogIssue::GoodsNotList)
    );

    let nameless_good = ConfigNode::Mapping(vec![(
        "waren".to_owned(),
        ConfigNode::List(vec![ConfigNode::Mapping(vec![])]),
    )]);
    assert_eq!(
        AltNamesMapping::new(&nameless_good).err().unwrap(),
        Error::CatalogFormat(CatalogIssue::GoodMissingName)
    );

    let scalar_alt_names = ConfigNode::Mapping(vec![(
        "waren".to_owned(),
        ConfigNode::List(vec![ConfigNode::Mapping(vec![
            ("name".to_owned(), text("Milch")),
            ("alt-names".to_owned(), text("Vollmilch")),
        ])]),
    )]);
    assert_eq!(
        AltNamesMapping::new(&scalar_alt_names).err().unwrap(),
        Error::CatalogFormat(CatalogIssue::AltNamesNotList)
    );

    let non_string_alt = ConfigNode::Mapping(vec![(
        "waren".to_owned(),
        ConfigNode::List(vec![ConfigNode::Mapping(vec![
            ("name".to_owned(), text("Milch")),
            ("alt-names".to_owned(), ConfigNode::List(vec![ConfigNode::Other])),
        ])]),
    )]);
    assert_eq!(
        AltNamesMapping::new(&non_string_alt).err().unwrap(),
        Error::CatalogFormat(CatalogIssue::AltNameNotString)
    );

    let config = Config::new(ConfigNode::Mapping(vec![]));
    assert_eq!(
        config.merchant_iter().err().unwrap(),
        Error::CatalogFormat(CatalogIssue::MerchantsNotList)
    );

    let nameless_merchant = Config::new(ConfigNode::Mapping(vec![(
        "locations".to_owned(),
        ConfigNode::List(vec![ConfigNode::Mapping(vec![])]),
    )]));
    assert_eq!(
        nameless_merchant.merchant_iter().err().unwrap(),
        Error::CatalogFormat(CatalogIssue::MerchantMissingName)
    );

    let goodless_merchant = Config::new(ConfigNode::Mapping(vec![(
        "locations".to_owned(),
        ConfigNode::List(vec![ConfigNode::Mapping(vec![(
            "name".to_owned(),
            text("Supermarkt"),
        )])]),
    )]));
    assert_eq!(
        goodless_merchant.merchant_iter().err().unwrap(),
        Error::CatalogFormat(CatalogIssue::MerchantGoodsNotList)
    );

    let non_string_good = Config::new(ConfigNode::Mapping(vec![(
        "locations".to_owned(),
        ConfigNode::List(vec![ConfigNode::Mapping(vec![
            ("name".to_owned(), text("Supermarkt")),
            ("waren".to_owned(), ConfigNode::List(vec![ConfigNode::Other])),
        ])]),
    )]));
    assert_eq!(
        non_string_good.merchant_iter().err().unwrap(),
        Error::CatalogFormat(CatalogIssue::MerchantGoodNotString)
    );
}

#[test]
fn duplicate_aliases_are_last_write_wins() {
    let root = ConfigNode::Mapping(vec![(
        "waren".to_owned(),
        ConfigNode::List(vec![
            ConfigNode::Mapping(vec![
                ("name".to_owned(), text("Milch")),
                ("alt-names".to_owned(), ConfigNode::List(vec![text("Frisch")])),
            ]),
            ConfigNode::Mapping(vec![
                ("name".to_owned(), text("Joghurt")),
                ("alt-names".to_owned(), ConfigNode::List(vec![text("Frisch")])),
            ]),
        ]),
    )]);
    let mapping = AltNamesMapping::new(&root).unwrap();
    assert_eq!(mapping.normalize_name("Frisch"), "Joghurt");
}

#[test]
fn empty_input_aggregates_to_nothing() {
    let zettel = Zettel::from_text("").unwrap();
    let sorted = SortedZettel::from_zettel(zettel, &AltNamesMapping::default()).unwrap();
    assert_eq!(sorted.items().len(), 0);
    assert_eq!(sorted.render(), "");
}

#[test]
fn structured_result_lists_groups() {
    let mut state = ShoppingListState::new();
    state.load_config(Config::new(sample_config()));
    state.process_input("5 Eier\n1l Milch\n500g Zucker").unwrap();
    let groups = state.get_list_result();
    assert_eq!(groups.len(), 2);
    assert_eq!(groups[0].0, "Supermarkt");
    assert_eq!(groups[0].1, vec!["1l Milch".to_owned(), "500g Zucker".to_owned()]);
    assert_eq!(groups[1].0, "elsewhere");
    assert_eq!(groups[1].1, vec!["5 Eier".to_owned()]);

    let mut plain = ShoppingListState::new();
    assert_eq!(plain.get_list_result().len(), 0);
    plain.process_input("2 Brot").unwrap();
    let entries = plain.get_list_result();
    assert_eq!(entries.len(), 1);
    assert_eq!(entries[0].0, "Einkaufszettel");
    assert_eq!(entries[0].1, vec!["2 Brot".to_owned()]);
}
