use teamim_tools::mam::{find_text_attr, get_text_attr, wide_letter, Context, EventKind, MamError, Target, XmlEvent};

fn ev(kind: EventKind, name: &str, attrs: &str) -> XmlEvent {
    XmlEvent { kind, name: name.as_bytes().to_vec(), content: format!("{name}{attrs}") }
}

fn start(name: &str) -> XmlEvent {
    ev(EventKind::Start, name, "")
}

fn end(name: &str) -> XmlEvent {
    ev(EventKind::End, name, "")
}

fn text(value: &str) -> XmlEvent {
    ev(EventKind::Empty, "text", &format!(" text=\"{value}\""))
}

fn eof() -> XmlEvent {
    ev(EventKind::Eof, "", "")
}

/// Two verses: one with a maqaf and a paseq, one given as a single empty tag.
fn genesis_events() -> Vec<XmlEvent> {
    vec![
        start("chapter"),
        start("verse"),
        text("בְּרֵאשִׁ֖ית "),
        text("בָּרָ֣א־אֱלֹהִ֑ים"),
        ev(EventKind::Empty, "lp-paseq", ""),
        text("אֵ֥ת"),
        end("verse"),
        ev(EventKind::Empty, "verse", " text=\"וְהָאָ֗רֶץ\""),
        end("chapter"),
        eof(),
    ]
}

fn extract(target: Target, evs: &[XmlEvent]) -> (Result<usize, MamError>, String) {
    let mut ctx = Context::new(target);
    let mut out = Vec::new();
    let res = ctx.parse_chapters(evs, 0, &mut out);
    (res, String::from_utf8(out).unwrap())
}

#[test]
fn search_target_keeps_consonants_only() {
    let (res, out) = extract(Target::Search, &genesis_events());
    assert_eq!(res, Ok(10));
    assert_eq!(out, "בראשיתבראאלהיםאתוהארץ");
}

#[test]
fn training_target_keeps_spaces_on_one_line() {
    let (res, out) = extract(Target::Training, &genesis_events());
    assert_eq!(res, Ok(10));
    assert_eq!(out, "בראשית ברא אלהים את והארץ ");
    assert!(!out.contains('\n'));
}

#[test]
fn teamim_target_writes_verse_per_line() {
    let (res, out) = extract(Target::Teamim, &genesis_events());
    assert_eq!(res, Ok(10));
    assert_eq!(out, "בְּרֵאשִׁ֖ית בָּרָ֣א־אֱלֹהִ֑ים ׀ אֵ֥ת\nוְהָאָ֗רֶץ\n");
}

#[test]
fn wide_target_widens_every_interval() {
    let letters = "ל".repeat(26);
    let evs = vec![start("verse"), text(&letters), end("verse"), eof()];
    let (res, out) = extract(Target::TrainingWideLetters, &evs);
    assert_eq!(res, Ok(4));
    let expected = format!("{}ﬥל ", "ל".repeat(24));
    assert_eq!(out, expected);
    // letters without a wide form are not counted
    let mixed = format!("{}{}{}", "א".repeat(24), "ב".repeat(3), "א");
    let evs = vec![start("verse"), text(&mixed), end("verse"), eof()];
    let (_, out) = extract(Target::TrainingWideLetters, &evs);
    assert_eq!(out, format!("{}{}ﬡ ", "א".repeat(24), "ב".repeat(3)));
    let (_, plain) = extract(Target::Training, &evs);
    assert_eq!(plain, format!("{mixed} "));
}

#[test]
fn unknown_tag_is_reported() {
    let evs = vec![start("chapter"), start("foo"), eof()];
    let (res, _) = extract(Target::Search, &evs);
    assert_eq!(res, Err(MamError::UnknownTag { at: 1 }));
}

#[test]
fn read_error_is_reported() {
    let evs = vec![start("chapter"), ev(EventKind::ReadError, "", "")];
    let (res, _) = extract(Target::Training, &evs);
    assert_eq!(res, Err(MamError::Read { at: 1 }));
}

#[test]
fn missing_text_attribute_is_reported() {
    let evs = vec![start("verse"), ev(EventKind::Empty, "text", " other=\"x\""), end("verse"), eof()];
    let (res, _) = extract(Target::Search, &evs);
    assert_eq!(res, Err(MamError::ExpectedText { at: 1 }));
}

#[test]
fn unterminated_verse_ends_input() {
    let evs = vec![start("verse"), text("אב")];
    let (res, _) = extract(Target::Search, &evs);
    assert_eq!(res, Err(MamError::Unexpected { at: 2 }));
}

#[test]
fn kq_writes_the_ketiv() {
    let evs = vec![
        start("verse"),
        start("kq"),
        ev(EventKind::Empty, "kq-k", " text=\"הוצא\""),
        ev(EventKind::Empty, "kq-q", " text=\"היצא\""),
        end("kq"),
        end("verse"),
        eof(),
    ];
    let (res, out) = extract(Target::Search, &evs);
    assert_eq!(res, Ok(7));
    assert_eq!(out, "הוצא");
}

#[test]
fn kq_without_qere_is_reported() {
    let evs = vec![start("verse"), start("kq"), ev(EventKind::Empty, "kq-k", " text=\"הוצא\""), end("kq"), end("verse"), eof()];
    let (res, _) = extract(Target::Search, &evs);
    assert_eq!(res, Err(MamError::NoQ { at: 3 }));
}

#[test]
fn text_attribute_is_found() {
    let e = ev(EventKind::Empty, "text", " a=\"1\" text=\"שלום\"");
    assert_eq!(get_text_attr(&e), Ok(Some("שלום".as_bytes().to_vec())));
    let none = ev(EventKind::Empty, "text", " a=\"1\"");
    assert_eq!(get_text_attr(&none), Ok(None));
}

#[test]
fn text_attribute_among_items() {
    let items = vec![Ok((b"a".to_vec(), b"1".to_vec())), Ok((b"text".to_vec(), b"v".to_vec()))];
    assert_eq!(find_text_attr(&items), Ok(Some(b"v".to_vec())));
    let broken = vec![Err(()), Ok((b"text".to_vec(), b"v".to_vec()))];
    assert_eq!(find_text_attr(&broken), Err(()));
    assert_eq!(find_text_attr(&[]), Ok(None));
}

#[test]
fn wide_letters_and_target_names() {
    assert_eq!(wide_letter('א'), Some('ﬡ'));
    assert_eq!(wide_letter('ב'), None);
    assert_eq!(Target::default(), Target::Teamim);
    assert_eq!(Target::Search.name(), "search");
    assert_eq!(Target::Training.name(), "diff");
    assert_eq!(Target::TrainingWideLetters.name(), "training");
}

fn empty(name: &str, attrs: &str) -> XmlEvent {
    ev(EventKind::Empty, name, attrs)
}

fn in_verse(inner: Vec<XmlEvent>) -> Vec<XmlEvent> {
    let mut evs = vec![start("verse")];
    evs.extend(inner);
    evs
}

#[test]
fn malformed_attributes_are_reported() {
    let evs = in_verse(vec![empty("text", " text=abc"), end("verse"), eof()]);
    assert_eq!(extract(Target::Search, &evs).0, Err(MamError::Attribute { at: 1 }));
}

#[test]
fn kq_errors() {
    let q = || empty("kq-q", "");
    let k = || empty("kq-k", " text=\"אב\"");
    let two_q = in_verse(vec![start("kq"), q(), q()]);
    assert_eq!(extract(Target::Search, &two_q).0, Err(MamError::TwoQ { at: 3 }));
    let two_k = in_verse(vec![start("kq"), k(), k()]);
    assert_eq!(extract(Target::Search, &two_k).0, Err(MamError::TwoK { at: 3 }));
    let no_k = in_verse(vec![start("kq"), q(), end("kq")]);
    assert_eq!(extract(Target::Search, &no_k).0, Err(MamError::NoK { at: 3 }));
}

#[test]
fn cant_all_three_writes_the_alef() {
    let evs = in_verse(vec![
        start("cant-all-three"),
        empty("cant-combined", ""),
        empty("cant-alef", " text=\"אָב\""),
        empty("cant-bet", ""),
        end("cant-all-three"),
        end("verse"),
        eof(),
    ]);
    let (res, out) = extract(Target::Search, &evs);
    assert_eq!(res, Ok(8));
    assert_eq!(out, "אב");
}

#[test]
fn cant_all_three_errors() {
    let head = || vec![start("cant-all-three")];
    let mut evs = head();
    evs.push(empty("text", " text=\"א\""));
    assert_eq!(extract(Target::Search, &in_verse(evs)).0, Err(MamError::ExpectedCombined { at: 2 }));

    let mut evs = head();
    evs.extend([empty("cant-combined", ""), empty("text", " text=\"א\"")]);
    assert_eq!(extract(Target::Search, &in_verse(evs)).0, Err(MamError::ExpectedAlef { at: 3 }));

    let with_alef = || {
        let mut evs = head();
        evs.extend([empty("cant-combined", ""), empty("cant-alef", " text=\"א\"")]);
        evs
    };
    let mut evs = with_alef();
    evs.push(empty("text", " text=\"א\""));
    assert_eq!(extract(Target::Search, &in_verse(evs)).0, Err(MamError::ExpectedBet { at: 4 }));

    let mut evs = with_alef();
    evs.extend([empty("cant-bet", ""), empty("text", " text=\"א\"")]);
    assert_eq!(extract(Target::Search, &in_verse(evs)).0, Err(MamError::ExpectedEnd { at: 5 }));

    let mut evs = with_alef();
    evs.extend([empty("cant-bet", ""), end("verse")]);
    assert_eq!(extract(Target::Search, &in_verse(evs)).0, Err(MamError::ExpectedAllThree { at: 5 }));
}

#[test]
fn scribal_differences() {
    let plain = in_verse(vec![
        start("scrdfftar"),
        empty("sdt-target", " text=\"אבג\""),
        empty("sdt-note", " text=\"אחר\""),
        end("scrdfftar"),
        end("verse"),
        eof(),
    ]);
    assert_eq!(extract(Target::Search, &plain), (Ok(7), "אבג".to_string()));

    let sefarad = in_verse(vec![
        start("scrdfftar"),
        empty("sdt-target", " text=\"אבג\""),
        empty("sdt-note", " text=\"בספרי ספרד ואשכנז דהו\""),
        end("scrdfftar"),
        end("verse"),
        eof(),
    ]);
    assert_eq!(extract(Target::Search, &sefarad), (Ok(7), "דהו".to_string()));

    let no_note_text = in_verse(vec![start("scrdfftar"), empty("sdt-target", " text=\"אבג\""), empty("sdt-note", "")]);
    assert_eq!(extract(Target::Search, &no_note_text).0, Err(MamError::ExpectedNoteText { at: 3 }));

    let no_target = in_verse(vec![start("scrdfftar"), empty("text", " text=\"א\"")]);
    assert_eq!(extract(Target::Search, &no_target).0, Err(MamError::ExpectedSdtTarget { at: 2 }));

    let unclosed = in_verse(vec![start("scrdfftar"), empty("sdt-target", ""), empty("text", " text=\"א\""), eof()]);
    assert_eq!(extract(Target::Search, &unclosed).0, Err(MamError::EndOfInput));
}

#[test]
fn search_is_training_without_spaces_and_wide_narrows_to_training() {
    let evs = genesis_events();
    let (_, search) = extract(Target::Search, &evs);
    let (_, training) = extract(Target::Training, &evs);
    assert_eq!(search, training.replace(' ', ""));
    let many = format!("{} {}", "אדהכלסרת".repeat(5), "בג");
    let evs = vec![start("verse"), text(&many), end("verse"), eof()];
    let (_, wide) = extract(Target::TrainingWideLetters, &evs);
    let (_, plain) = extract(Target::Training, &evs);
    let narrowed: String = wide
        .chars()
        .map(|c| teamim_tools::training::narrow_letter(c).unwrap_or(c))
        .collect();
    assert_eq!(narrowed, plain);
    assert!(wide != plain);
}
