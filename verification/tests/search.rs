use teamim_tools::search::{approx_match, match_from_positions, text, try_approx_match, Corpus, Kgrams};

/// The passage of the test query as the corpus holds it: the recognized
/// "ותלר" at its start is "ותלך".
fn flood_corpus(query: &str) -> Corpus {
    let corrected = query.replacen("ותלר", "ותלך", 1);
    let mut corpus = String::from("ויהי המבול ארבעים יום על הארץ וירבו המים וישאו את התבה ותרם מעל הארץ ויגברו המים וירבו מאד על הארץ ");
    corpus.push_str(&corrected);
    corpus.push_str(" ויקרא נח בשם יהוה");
    Corpus::new(corpus)
}

#[test]
fn test_full_text() {
    let query = "ותלר התבה על פני המים והמים גברו מאד מאד\nעל הארץ ויכסו כל ההרים הגבהים אשר תחת כל\nהשמים חמש עשרה אמה מלמעלה גברו המים\nויכסו ההרים ויגוע כל בשר הרמש על הארץ\nבעוה ובבהמה ובחיה ובכל השרץ השרץ על\nהארץ וכל האדם כל אשר נשמת רוח חיים באפיו\nמכל אשר בחרבה מתו וימח את כל היקום אשר\nעל פני האדמה מאדם עד בהמה עד רמש ועד\nעוף השמים וימחו מן הארץ וישאר ארך נח ואשר\nאתו בתבה ויגברו המים על הארץ חמשים ומאת\nיום ויזכר אלהים את נח ואת כל החיה ואת לעק\nהבהמה אשר אתו בתבה ויעבר אלהים רוח ע\nהארץ וישכו המים ויסכרו מעינת תהום וארבת\nהשמים ויכלא הגשם מן השמים וישבו המים מ\nהארץ הלוך ושוב ויחסרו המים מקצה חמשים\nומאת יום ותנח התבה בחדש השביעי בשבעה\nעשר יום לחדש על הרי אררט והמים היו הלוך\nוחסור עד החדש העשירי בעשירי באחד לחדש\nנראו ראשי ההרים ויהי מקץ ארבעים יום ויפתח\nנח את חלון התבה אשר עשה וישלח את הערב\nויצא יצוא ושוב עד יבשת המים מעל הארץ\nוישלח את היונה מאתו לראות הקלו שרח מעל\nפני האדמה ולא מצאה היונה מנוח לכף רגלה\nותשב אליו אל התבה כי מים על פני כל הארץ\nוישלח ידו ויקחה ויבא אתה אליו אל התבה ויחל\nעוד שבעת ימים אחרים ויסף שלח את היונה מץ\nהתבה ותבא אליו היונה לעת ערב והנה עלה זית\nטרף בפיה וידע נח כי קלו המים מעל הארץ וייחל\nעוד שבעת ימים אחרים וישלח את היונה ולא\nיסהה שוב אליו עוד ויהי באחת ושש מאות שנה\nבראשון באחד לחדש חרבו המים מעל הארץ\nויסר נח את מכסה התבה וירא והנה חרבו פני\nהאדמה ובחדש השני בשבעה ועשרים יו לחדש\nיבשה הארץ וידבר אלהים א\nן נח לאמר צא מן התבה אתה ואשתך ובניך ונשי\nבניך אתך כל החיה אשר אתך מכל בשר בעוף\nץ ובבהמה ובכל הרמש הרמש על הארץ הוצא אתך\nו שרצו בארץ ופרו ורבו על הארץ ויצא נח ובניו\nו אשתו ונשי בניו אתו כל החיה כל הרמש וכ\nהעוף כל רומש על הארץ למשפחתיהם יצאו מן\nהתבה ויבן נח מזבח ליהוה ויקח מכל הבהמה\nהטהרה ומכל העוף הטהור ויעל עלת במזבח\n\n";
    let query = query.trim().replace('\n', " ");
    let corpus = flood_corpus(&query);

    let Some(found) = approx_match(&corpus, &query) else {
        panic!("Expected to find a match for the full text");
    };
    println!("Query: {query}");
    println!("Match: {}", found.text);
}

#[test]
fn exact_query_is_found_at_its_position() {
    let corpus = Corpus::new("אבגד הוזח".to_string());
    let found = approx_match(&corpus, "הוז").unwrap();
    assert_eq!(found.byte_pos, 9);
    assert_eq!(found.text, "הוז");
    assert_eq!(text(&corpus), "אבגד הוזח");
}

#[test]
fn absent_query_is_not_found() {
    let corpus = Corpus::new("אבגד הוזח".to_string());
    assert!(approx_match(&corpus, "טי").is_none());
    assert!(approx_match(&corpus, "").is_none());
}

#[test]
fn corrupted_start_is_skipped() {
    let corpus = Corpus::new("0123456789abcdefghijklmnopqrstuvwxyz".to_string());
    let found = approx_match(&corpus, "XXXXXXXXXXXXXXXXghijklmn").unwrap();
    assert_eq!(found.byte_pos, 0);
    assert_eq!(found.text, "0123456789abcdefghijklmn");
}

#[test]
fn match_before_the_text_would_panic() {
    let corpus = Corpus::new("ghijklmnopqrstuvwxyz".to_string());
    assert!(try_approx_match(&corpus, "XXXXXXXXXXXXXXXXghij").is_none());
}

#[test]
fn match_from_reported_positions() {
    let text = "אבגדה";
    assert!(matches!(match_from_positions(text, &[], 0, 2, 4), Some(None)));
    let m = match_from_positions(text, &[4, 0], 2, 2, 4).unwrap().unwrap();
    assert_eq!((m.byte_pos, m.text), (2, "בג"));
    assert!(match_from_positions(text, &[1], 0, 2, 4).is_none());
    assert!(match_from_positions(text, &[0], 2, 2, 4).is_none());
    let m = match_from_positions(text, &[6], 0, 9, 4).unwrap().unwrap();
    assert_eq!(m.text, "דה");
}

#[test]
fn kgrams_cover_the_query() {
    let mut kgrams = Kgrams::new("abcdefghij", 4);
    assert_eq!(kgrams.next(), Some("abcd"));
    assert_eq!(kgrams.next(), Some("efgh"));
    assert_eq!(kgrams.next(), Some("ij"));
    assert_eq!(kgrams.next(), None);
    let mut hebrew = Kgrams::new("אבג", 2);
    assert_eq!(hebrew.next(), Some("אב"));
    assert_eq!(hebrew.next(), Some("ג"));
    assert_eq!(hebrew.next(), None);
    assert_eq!(Kgrams::new("abc", 0).next(), None);
}

#[test]
fn kgrams_join_back_to_the_query() {
    let query = "ותלר התבה על פני המים והמים גברו";
    let mut kgrams = Kgrams::new(query, 16);
    let mut pieces = Vec::new();
    while let Some(piece) = kgrams.next() {
        pieces.push(piece);
    }
    assert_eq!(pieces.concat(), query);
    assert!(pieces[..pieces.len() - 1].iter().all(|p| p.chars().count() == 16));
    assert!(pieces.iter().all(|p| (1..=16).contains(&p.chars().count())));
}

#[test]
fn kgram_count_is_rounded_up() {
    for (text, k, count) in [("", 3, 0), ("abc", 3, 1), ("abcd", 3, 2), ("abcdef", 3, 2), ("abcdefg", 3, 3)] {
        let mut kgrams = Kgrams::new(text, k);
        let mut n = 0;
        while kgrams.next().is_some() {
            n += 1;
        }
        assert_eq!(n, count);
        assert_eq!(kgrams.next(), None);
    }
}

#[test]
fn first_occurring_piece_stands_at_its_offset() {
    let corpus = Corpus::new("0123456789abcdefghijklmnopqrstuvwxyzABCDEFGHIJKLMNOP".to_string());
    // the first piece does not occur, the second does, at its offset of 16 bytes
    let query = "XXXXXXXXXXXXXXXXghijklmnopqrstuv";
    let found = approx_match(&corpus, query).unwrap();
    assert!(text(&corpus)[found.byte_pos + 16..].starts_with("ghijklmnopqrstuv"));
    // no piece occurs: nothing is found
    assert!(approx_match(&corpus, "XXXXXXXXXXXXXXXXYYYY").is_none());
}
