use order_infra::order::{
    order_from_string, Field, OrderType, ParseError, Price, SingleOrder,
};

fn price(ticks: u64) -> Price {
    Price { ticks }
}

#[test]
fn parse_basic_buy_order() {
    let buy_ord_str = "1 BOFASEC AAPL 50.0 100 BUY".to_string();
    let buy_ord_check = SingleOrder {
        order_time: 1,
        direction: OrderType::BUY,
        security_name: "AAPL".to_string(),
        price: price(500000),
        size: 100,
        participant_code: "BOFASEC".to_string(),
    };
    let buy_ord = order_from_string(buy_ord_str).unwrap();
    assert_eq!(buy_ord, buy_ord_check)
}

#[test]
fn parse_basic_sell_order() {
    let sell_ord_str = "1 BOFASEC FB 75.0 100 SELL".to_string();
    let sell_ord_check = SingleOrder {
        order_time: 1,
        direction: OrderType::SELL,
        security_name: "FB".to_string(),
        price: price(750000),
        size: 100,
        participant_code: "BOFASEC".to_string(),
    };
    let sell_ord = order_from_string(sell_ord_str).unwrap();
    assert_eq!(sell_ord, sell_ord_check)
}

#[test]
fn parse_price_as_int() {
    let sell_ord_str = "1 BOFASEC FB 75 100 SELL".to_string();
    let sell_ord_check = SingleOrder {
        order_time: 1,
        direction: OrderType::SELL,
        security_name: "FB".to_string(),
        price: price(750000),
        size: 100,
        participant_code: "BOFASEC".to_string(),
    };
    let sell_ord = order_from_string(sell_ord_str).unwrap();
    assert_eq!(sell_ord, sell_ord_check)
}

#[test]
fn reparse_same_text_yields_equal_order() {
    let text = "7 BOFASEC MSFT 123.45 8 BUY";
    let once = order_from_string(text.to_string()).unwrap();
    let twice = order_from_string(text.to_string()).unwrap();
    assert_eq!(once, twice);
    assert_eq!(once.price, price(1234500));
}

#[test]
fn extra_whitespace_between_fields_is_tolerated() {
    let ord = order_from_string("1 \t BOFASEC\n  AAPL   50.0  100  BUY".to_string()).unwrap();
    assert_eq!(ord.order_time, 1);
    assert_eq!(ord.participant_code, "BOFASEC");
    assert_eq!(ord.security_name, "AAPL");
    assert_eq!(ord.price, price(500000));
    assert_eq!(ord.size, 100);
    assert_eq!(ord.direction, OrderType::BUY);
}

#[test]
fn trailing_tokens_are_ignored() {
    let ord = order_from_string("1 BOFASEC AAPL 50.0 100 BUY extra tokens".to_string()).unwrap();
    assert_eq!(ord.size, 100);
    assert_eq!(ord.direction, OrderType::BUY);
}

#[test]
fn missing_fields_are_named_in_record_order() {
    let cases: [(&str, Field); 6] = [
        ("", Field::OrderTime),
        ("1", Field::ParticipantCode),
        ("1 BOFASEC", Field::SecurityName),
        ("1 BOFASEC AAPL", Field::Price),
        ("1 BOFASEC AAPL 50.0", Field::Size),
        ("1 BOFASEC AAPL 50.0 100", Field::Direction),
    ];
    for (text, field) in cases {
        let got = order_from_string(text.to_string());
        assert_eq!(got, Err(ParseError::FieldMissing(field)), "for record {:?}", text);
    }
}

#[test]
fn whitespace_only_record_misses_the_first_field() {
    let got = order_from_string("   \t  ".to_string());
    assert_eq!(got, Err(ParseError::FieldMissing(Field::OrderTime)));
}

#[test]
fn malformed_order_time_is_reported() {
    let got = order_from_string("soon BOFASEC AAPL 50.0 100 BUY".to_string());
    assert_eq!(
        got,
        Err(ParseError::MalformedNumber(Field::OrderTime, "soon".to_string()))
    );
}

#[test]
fn negative_or_zero_numbers_are_malformed() {
    assert_eq!(
        order_from_string("-1 BOFASEC AAPL 50.0 100 BUY".to_string()),
        Err(ParseError::MalformedNumber(Field::OrderTime, "-1".to_string()))
    );
    assert_eq!(
        order_from_string("1 BOFASEC AAPL 50.0 0 BUY".to_string()),
        Err(ParseError::MalformedNumber(Field::Size, "0".to_string()))
    );
    assert_eq!(
        order_from_string("1 BOFASEC AAPL 0.0 100 BUY".to_string()),
        Err(ParseError::MalformedNumber(Field::Price, "0.0".to_string()))
    );
}

#[test]
fn malformed_price_is_reported_with_its_text() {
    let got = order_from_string("1 BOFASEC AAPL 5x.0 100 BUY".to_string());
    assert_eq!(
        got,
        Err(ParseError::MalformedNumber(Field::Price, "5x.0".to_string()))
    );
}

#[test]
fn price_grammar_rejects_stray_and_excess_fraction_digits() {
    for bad in ["5.", ".5", "1.23456", "1.2.3"] {
        let text = format!("1 BOFASEC AAPL {} 100 BUY", bad);
        assert_eq!(
            order_from_string(text),
            Err(ParseError::MalformedNumber(Field::Price, bad.to_string())),
            "for price {:?}",
            bad
        );
    }
}

#[test]
fn order_time_beyond_i32_is_malformed() {
    let got = order_from_string("99999999999 BOFASEC AAPL 50.0 100 BUY".to_string());
    assert_eq!(
        got,
        Err(ParseError::MalformedNumber(
            Field::OrderTime,
            "99999999999".to_string()
        ))
    );
}

#[test]
fn non_finite_price_is_rejected() {
    for bad in ["inf", "INF", "Infinity", "nan", "NaN"] {
        let text = format!("1 BOFASEC AAPL {} 100 BUY", bad);
        assert_eq!(
            order_from_string(text),
            Err(ParseError::NonFiniteValue),
            "for price {:?}",
            bad
        );
    }
}

#[test]
fn price_beyond_the_tick_range_is_not_finite() {
    let got = order_from_string("1 BOFASEC AAPL 99999999999999999999 100 BUY".to_string());
    assert_eq!(got, Err(ParseError::NonFiniteValue));
}

#[test]
fn invalid_direction_is_reported_with_its_text() {
    let got = order_from_string("1 BOFASEC AAPL 50.0 100 buy".to_string());
    assert_eq!(got, Err(ParseError::InvalidDirection("buy".to_string())));
}

#[test]
fn direction_must_match_exactly() {
    assert!(matches!(
        order_from_string("1 BOFASEC AAPL 50.0 100 HOLD".to_string()),
        Err(ParseError::InvalidDirection(_))
    ));
}

#[test]
fn fraction_digits_weigh_by_position() {
    let ord = order_from_string("1 A B 1.5 1 BUY".to_string()).unwrap();
    assert_eq!(ord.price, price(15000));
    let ord = order_from_string("1 A B 0.0001 1 BUY".to_string()).unwrap();
    assert_eq!(ord.price, price(1));
    let ord = order_from_string("1 A B 123.4567 1 BUY".to_string()).unwrap();
    assert_eq!(ord.price, price(1234567));
}

#[test]
fn error_messages_read_as_reports() {
    assert_eq!(
        ParseError::FieldMissing(Field::Price).message(),
        "Price is missing"
    );
    assert_eq!(
        ParseError::InvalidDirection("HOLD".to_string()).message(),
        "HOLD is not an order type; must be BUY OR SELL"
    );
    assert_eq!(
        ParseError::MalformedNumber(Field::Size, "ten".to_string()).message(),
        "Size could not be read from ten"
    );
}
