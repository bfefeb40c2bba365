use purport::highlight::{capture_table, IllegalQuery, Range, TextHighlighting, Theme, ThemeError, Type};
use purport::ui::{Action, Colour, EscapeSeq, Event, PromptAction};

#[test]
fn ranges_mark_starts_and_stops() {
    let h = TextHighlighting::from_ranges(
        4,
        vec![
            Range { start: (0, 1), stop: (0, 3), highlight: Type::Number },
            Range { start: (1, 0), stop: (2, 2), highlight: Type::Keyword },
        ],
    );
    let l0 = h.get_line(0).unwrap();
    assert_eq!(l0.get(0), Some(Type::Text));
    assert_eq!(l0.get(1), Some(Type::Number));
    assert_eq!(l0.get(2), None);
    assert_eq!(l0.get(3), Some(Type::Text));
    let l1 = h.get_line(1).unwrap();
    assert_eq!(l1.get(0), Some(Type::Keyword));
    let l2 = h.get_line(2).unwrap();
    assert_eq!(l2.get(0), Some(Type::Keyword));
    assert_eq!(l2.get(2), Some(Type::Text));
    let l3 = h.get_line(3).unwrap();
    assert_eq!(l3.get(0), Some(Type::Text));
    assert!(h.get_line(4).is_none());
}

#[test]
fn style_carries_from_nearest_row_with_boundaries() {
    let h = TextHighlighting::from_ranges(
        5,
        vec![Range { start: (0, 2), stop: (0, 2), highlight: Type::Operator }],
    );
    // the stop at (0, 2) does not replace the start that is already there
    assert_eq!(h.get_line(0).unwrap().get(2), Some(Type::Operator));
    assert_eq!(h.get_line(3).unwrap().get(0), Some(Type::Operator));
    assert!(TextHighlighting::default().get_line(0).is_none());
}

#[test]
fn names_of_kinds_and_colours() {
    assert_eq!("number".parse::<Type>().unwrap(), Type::Number);
    assert_eq!("keyword".parse::<Type>().unwrap(), Type::Keyword);
    assert_eq!("variable".parse::<Type>().unwrap(), Type::Variable);
    assert!("Number".parse::<Type>().is_err());
    assert_eq!("magenta".parse::<Colour>().unwrap(), Colour::Magenta);
    assert_eq!("reset".parse::<Colour>().unwrap(), Colour::Reset);
    assert_eq!(Colour::parse("purple").unwrap_err().0, "purple");
}

#[test]
fn default_theme() {
    let t = Theme::default();
    assert_eq!(t.get(Type::Number), Colour::Blue);
    assert_eq!(t.get(Type::Operator), Colour::Green);
    assert_eq!(t.get(Type::Variable), Colour::Cyan);
    assert_eq!(t.get(Type::Keyword), Colour::Yellow);
    assert_eq!(t.get(Type::Text), Colour::Reset);
    let mut e = Theme::empty();
    e.set(Type::Text, Colour::Red);
    assert_eq!(e.get(Type::Text), Colour::Red);
}

#[test]
fn parse() {
    let theme: Theme = "
        operator = \"red\"
        number = \"green\"
        "
    .parse()
    .unwrap();

    let mut highlighting = Theme::empty();
    highlighting.set(Type::Operator, Colour::Red);
    highlighting.set(Type::Number, Colour::Green);
    assert_eq!(theme, highlighting);
}

#[test]
fn theme_errors() {
    assert!(matches!("operator = ".parse::<Theme>(), Err(ThemeError::Toml(_))));
    assert!(matches!("operator = 3".parse::<Theme>(), Err(ThemeError::IsntString)));
    match "colour = \"red\"".parse::<Theme>() {
        Err(ThemeError::Type(e)) => assert_eq!(e.0, "colour"),
        other => panic!("unexpected {:?}", other),
    }
    match "text = \"pink\"".parse::<Theme>() {
        Err(ThemeError::Colour(e)) => assert_eq!(e.0, "pink"),
        other => panic!("unexpected {:?}", other),
    }
}

#[test]
fn events_map_to_actions() {
    assert_eq!(Event::SpecialChar(EscapeSeq::DownArrow).action(), Action::MoveUpDown(1));
    assert_eq!(Event::SpecialChar(EscapeSeq::LeftArrow).action(), Action::MoveLeftRight(-1));
    assert_eq!(Event::NormalChar('\x11').action(), Action::Quit);
    assert_eq!(Event::NormalChar('\x13').action(), Action::Save);
    assert_eq!(Event::NormalChar('\x7f').action(), Action::Backspace);
    assert_eq!(Event::NormalChar('\x01').action(), Action::TypeFromPrompt);
    assert_eq!(Event::NormalChar('q').action(), Action::Insert('q'));
    assert_eq!(Event::SpecialChar(EscapeSeq::UpArrow).prompt_action(), PromptAction::Ignore);
    assert_eq!(Event::NormalChar('\r').prompt_action(), PromptAction::Take);
    assert_eq!(Event::NormalChar('\x7f').prompt_action(), PromptAction::Backspace);
    assert_eq!(Event::SpecialChar(EscapeSeq::RightArrow).prompt_action(), PromptAction::MoveLeftRight(1));
    assert_eq!(Event::NormalChar('x').prompt_action(), PromptAction::Insert('x'));
}

#[test]
fn capture_names_by_index() {
    let names = vec![String::from("keyword"), String::from("number")];
    let t = capture_table(&names, &vec![Some(2), Some(0)], "q").unwrap();
    assert_eq!(t, vec![String::from("number"), String::new(), String::from("keyword")]);
    match capture_table(&names, &vec![Some(1), None], "q") {
        Err(IllegalQuery::NameNotFound(q, n)) => {
            assert_eq!(q, "q");
            assert_eq!(n, "number");
        }
        other => panic!("unexpected {:?}", other),
    }
    assert!(matches!(capture_table(&names, &vec![Some(1), Some(1)], "q"), Err(IllegalQuery::DuplicateId(_, 1))));
}
