//! Tests of the localisation parser: the scenarios of the format description
//! and the edge cases of the unit-line grammar.

use localization::Localization;
use localization::LocalizationUnit;

#[test]
fn parse() {
    let content = r#"
l_russian:
 #News events
 wuw_GER_news.1.t: "Воссоединение Германии"
 wuw_GER_news.1.d: "Возрадуйся, немецкий народ! Долой старые, произвольно проведенные границы между регионами, служившие лишь одной цели — разлучить родных братьев! Наступает новая эпоха. Сегодня [FROM.GetLeader], достойный последователь великого Бисмарка, объявляет о воссоединении Германии и зарождении нового государства, которому суждено простоять тысячу лет!"
 wuw_GER_news.1.a: "Наконец-то Германия вновь едина"
 wuw_GER_news.1.b: "То ли еще будет"
 wuw_GER_news.2.t: "Восстание в Силезии"
 wuw_GER_news.2.desc: "Мятежные жители Немецкой Силезии в четвертый раз со дня подписания Версальского мирного договора взбунтовались против властей. [SIL.GetLeader] утверждает, что силезский народ взял в руки оружие, чтобы отстоять независимость своего государства, а заодно защититься от последствий гражданской войны в Германии. Это восстание разительно отличается от предыдущих, направленных на обретение автономии в составе польского государства. Время покажет, смогут ли повстанцы дать отпор немецкой армии."
 wuw_GER_news.2.a: "Любопытный поворот событий"
 wuw_GER_news.2.b: "Раньше у них ничего не получалось"
 wuw_GER_news.2.c: "Вот он, решающий миг!"
 wuw_GER_news.2.d: "Будем надеяться, что сейчас у них всё получится"
 #Austrian events
 AUS_political_events.1.t: "Судьба Creditanstalt-Bankverein"
 AUS_political_events.1.desc: "Нам стало известно, что произошедшее в 1934 году слияние банков, в результате которого прошедший повторную капитализацию Creditanstalt завладел всеми активами и обязательствами Wiener Bankverein, а также получил контроль над операциями Niederösterreichische Escompte-Gesellschaft, привело к негативным последствиям: экономическое развитие нашего государства замедлилось. Кроме того, мы в итоге передали весь финансовый сектор в руки монополиста. Поскольку регулирование этого сектора входит в наши обязанности, нам следует подумать, как действовать дальше."
 AUS_political_events.1.a: "Оставим все как есть: так будет надежнее всего."
 AUS_political_events.1.a_tt: "Наши промышленные концерны останутся без изменений. Creditanstalt-Bankverein останется доступен. Эффект:"
 AUS_political_events.1.b: "Österreichische Creditanstalt — вот лучший выбор."
 AUS_political_events.1.c: "Wiener Bankverein нас не подведет."
 AUS_reestablish_creditanstalt: "Creditanstalt-Bankverein прекратит деятельность, а новообразованный Österreichische Creditanstalt получит полную поддержку."
 AUS_reestablish_benkverein: "Creditanstalt-Bankverein прекратит деятельность, а новообразованный Wiener Bankverein получит полную поддержку."
 AUS_political_events.2.t: "Скандал со страховой компанией Phönix"
 AUS_political_events.2.desc: "Вскоре после смерти Вильгельма Берлинера — пользовавшегося любовью всех сотрудников руководителя страховой компании Phönix, его детище столкнулось с новой бедой. Новый руководитель Эберхард Райнингхаус представил правительству доказательства подделки финансовых отчетов. Оказалось, что еще с 1929 года за компанией тянулся дефицит, достигший уже 250 миллионов шиллингов.\n\nКомпания объявила о банкротстве и тут же прекратила свою деятельность. При этом была закрыта широкая программа страхования участников боевых действий, что вызвало массовое недовольство иждивенцев, которые лишились средств к существованию."
 AUS_political_events.2.a: "Какой кошмар!"
"#;
    let localization = Localization::parse(content).unwrap();
    println!("{:#?}", localization);

    assert_eq!(localization.len(), 1);

    let first = localization.first().unwrap();
    assert_eq!(first.units.len(), 21);
    assert_eq!(first.lang, "russian");
}

#[test]
fn concrete_scenario() {
    let content = "l_english:\n greeting.1.t: \"Hello\"\n greeting.1.d:0 \"World\"\n";
    let locs = Localization::parse(content).unwrap();
    assert_eq!(locs.len(), 1);
    assert_eq!(locs[0].lang, "english");
    assert_eq!(locs[0].units.len(), 2);
    assert_eq!(locs[0].units[0].key, "greeting.1.t");
    assert_eq!(locs[0].units[0].version, None);
    assert_eq!(locs[0].units[0].value, "Hello");
    assert_eq!(locs[0].units[1].key, "greeting.1.d");
    assert_eq!(locs[0].units[1].version, Some(0));
    assert_eq!(locs[0].units[1].value, "World");
}

#[test]
fn header_prefix_is_stripped() {
    let locs = Localization::parse("l_french\n").unwrap();
    assert_eq!(locs.len(), 1);
    assert_eq!(locs[0].lang, "french");
    assert!(locs[0].units.is_empty());

    let locs = Localization::parse("l_french:\n").unwrap();
    assert_eq!(locs.len(), 1);
    assert_eq!(locs[0].lang, "french");
}

#[test]
fn l_prefix_elsewhere_is_not_a_header() {
    let content = "l_english:\n key.1: \"value naming l_german inside\"\n l_shifted: \"starts with whitespace, so a unit\"\n";
    let locs = Localization::parse(content).unwrap();
    assert_eq!(locs.len(), 1);
    assert_eq!(locs[0].lang, "english");
    assert_eq!(locs[0].units.len(), 2);
    assert_eq!(locs[0].units[0].value, "value naming l_german inside");
    assert_eq!(locs[0].units[1].key, "l_shifted");
}

#[test]
fn comment_and_blank_group_is_empty() {
    let content = "l_german:\n # a comment\n\n   \n\t\n # another comment\n";
    let locs = Localization::parse(content).unwrap();
    assert_eq!(locs.len(), 1);
    assert_eq!(locs[0].lang, "german");
    assert!(locs[0].units.is_empty());
}

#[test]
fn lines_before_first_header_are_discarded() {
    let content = "stray text without quotes\nanother stray line\nl_english:\n key: \"v\"\n";
    let locs = Localization::parse(content).unwrap();
    assert_eq!(locs.len(), 1);
    assert_eq!(locs[0].lang, "english");
    assert_eq!(locs[0].units.len(), 1);
    assert_eq!(locs[0].units[0].key, "key");
}

#[test]
fn malformed_line_fails() {
    let content = "l_english:\n key: \"v\"\n badline without quotes\n";
    let err = Localization::parse(content).unwrap_err();
    assert_eq!(err.lang, "english");
    assert_eq!(err.line, " badline without quotes");
    assert_eq!(err.line_number, 3);
}

#[test]
fn unit_round_trip() {
    let locs = Localization::parse("l_a:\n greeting.1.d:0 \"World\"\n a.key: \"no version\"\n")
        .unwrap();
    for u in &locs[0].units {
        let line = match u.version {
            Some(v) => format!("{}:{} \"{}\"", u.key, v, u.value),
            None => format!("{}: \"{}\"", u.key, u.value),
        };
        let content = format!("l_x:\n{}\n", line);
        let reparsed = Localization::parse(&content).unwrap();
        assert_eq!(reparsed[0].units.len(), 1);
        assert_eq!(
            reparsed[0].units[0],
            LocalizationUnit {
                key: u.key.clone(),
                version: u.version,
                value: u.value.clone(),
            }
        );
    }
}

#[test]
fn repeated_header_merges_in_first_appearance_order() {
    let content = "l_english:\n a: \"1\"\nl_german:\n b: \"2\"\nl_english:\n c: \"3\"\n";
    let locs = Localization::parse(content).unwrap();
    assert_eq!(locs.len(), 2);
    assert_eq!(locs[0].lang, "english");
    assert_eq!(locs[0].units.len(), 2);
    assert_eq!(locs[0].units[0].value, "1");
    assert_eq!(locs[0].units[1].value, "3");
    assert_eq!(locs[1].lang, "german");
    assert_eq!(locs[1].units.len(), 1);
    assert_eq!(locs[1].units[0].value, "2");
}

#[test]
fn version_bounds() {
    let locs = Localization::parse("l_e:\n k:2147483647 \"v\"\n").unwrap();
    assert_eq!(locs[0].units[0].version, Some(2147483647));

    let err = Localization::parse("l_e:\n k:2147483648 \"v\"\n").unwrap_err();
    assert_eq!(err.line_number, 2);
    assert_eq!(err.lang, "e");
}

#[test]
fn key_keeps_extra_colons() {
    let locs = Localization::parse("l_e:\n a:b:c: \"v\"\n x:1:2 \"w\"\n").unwrap();
    assert_eq!(locs[0].units[0].key, "a:b:c");
    assert_eq!(locs[0].units[0].version, None);
    assert_eq!(locs[0].units[1].key, "x:1");
    assert_eq!(locs[0].units[1].version, Some(2));
}

#[test]
fn colon_with_non_digit_version_fails() {
    let err = Localization::parse("l_e:\n k:x \"v\"\n").unwrap_err();
    assert_eq!(err.line_number, 2);
}

#[test]
fn missing_separator_fails() {
    let err = Localization::parse("l_e:\n k:\"v\"\n").unwrap_err();
    assert_eq!(err.line, " k:\"v\"");
}

#[test]
fn crlf_line_endings_are_accepted() {
    let content = "l_english:\r\n k:3 \"v\"\r\n";
    let locs = Localization::parse(content).unwrap();
    assert_eq!(locs[0].lang, "english");
    assert_eq!(locs[0].units[0].version, Some(3));
    assert_eq!(locs[0].units[0].value, "v");
}

#[test]
fn empty_input_gives_no_groups() {
    let locs = Localization::parse("").unwrap();
    assert!(locs.is_empty());
}

#[test]
fn value_runs_to_last_quote() {
    let locs = Localization::parse("l_e:\n k: \"a\"b\"\n").unwrap();
    assert_eq!(locs[0].units[0].value, "a\"b");
}

#[test]
fn backslash_n_kept_verbatim() {
    let locs = Localization::parse("l_e:\n k: \"first\\nsecond\"\n").unwrap();
    assert_eq!(locs[0].units[0].value, "first\\nsecond");
}
