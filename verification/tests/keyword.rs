use area_db::keyword::{en_name_keyword, key_word_clear, name_clear};

#[test]
fn key_word_clear_cuts_first_ending() {
    assert_eq!(key_word_clear("  广东省 "), "广东");
    assert_eq!(key_word_clear("北京"), "北京");
    assert_eq!(key_word_clear("南口村委会"), "南口");
    assert_eq!(key_word_clear("梅江区"), "梅江区");
    assert_eq!(key_word_clear("东山街道办"), "东山");
}

#[test]
fn name_clear_trims_clear_words() {
    assert_eq!(name_clear(" 南口社区居委会 "), "南口");
    assert_eq!(name_clear("东山街道办"), "东山");
    assert_eq!(name_clear("梅江区"), "梅江区");
    assert_eq!(name_clear("A--"), "A");
}

#[test]
fn en_name_keyword_splits_camel_case() {
    assert_eq!(en_name_keyword("HongKong Island"), "hong kong island");
    assert_eq!(en_name_keyword("beijing"), "beijing");
    assert_eq!(en_name_keyword(""), "");
}
