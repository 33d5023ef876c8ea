use freecell_search::card::{card_name, card_numerical, suit_name, value_name, Card};

#[test]
fn card_codes() {
    assert_eq!(card_numerical(None), 0);
    assert_eq!(card_numerical(Some(&Card { suit: 0, value: 1 })), 1);
    assert_eq!(card_numerical(Some(&Card { suit: 2, value: 13 })), 213);
    assert_eq!(card_numerical(Some(&Card { suit: 3, value: 7 })), 307);
}

#[test]
fn suit_names() {
    assert_eq!(suit_name(0), "H");
    assert_eq!(suit_name(1), "D");
    assert_eq!(suit_name(2), "C");
    assert_eq!(suit_name(3), "S");
    assert_eq!(suit_name(9), "u");
}

#[test]
fn value_names() {
    assert_eq!(value_name(1), "A");
    assert_eq!(value_name(10), "10");
    assert_eq!(value_name(11), "J");
    assert_eq!(value_name(12), "Q");
    assert_eq!(value_name(13), "K");
}

#[test]
fn card_names() {
    assert_eq!(
        card_name(Some(&Card { suit: 3, value: 1 }), String::from("-")),
        "AS "
    );
    assert_eq!(
        card_name(Some(&Card { suit: 0, value: 10 }), String::from("-")),
        "10H "
    );
    assert_eq!(card_name(None, String::from(" x ")), " x ");
}
