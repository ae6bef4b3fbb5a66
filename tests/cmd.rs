use trigger_expr::cmd::{
    combine_buttons, get_dir_tuple, get_ordinal_pair, get_ordinals, matches_sequence,
    matches_sequence_exact,
    remove_inbetweens, Button, ButtonKind, Command, CommandList, Direction, DirectionKind, Element,
    Key, Sequence,
};
use trigger_expr::state::{MoveType, Physics, StateType};

fn dir(d: Direction) -> Key {
    Key::Direction(DirectionKind::Single(d))
}

fn btn(button: Button) -> Key {
    Key::Button(ButtonKind::Single(button))
}

#[test]
fn ordinal_pairs_and_sets() {
    assert_eq!(get_ordinal_pair((Direction::D, Direction::F)), dir(Direction::DF));
    assert_eq!(get_ordinal_pair((Direction::U, Direction::B)), dir(Direction::UB));
    assert_eq!(get_ordinal_pair((Direction::F, Direction::D)), dir(Direction::F));
    assert_eq!(get_ordinals(vec![Direction::B, Direction::D]), dir(Direction::DB));
    assert_eq!(get_ordinals(vec![Direction::F]), dir(Direction::F));
}

#[test]
fn combined_buttons() {
    assert_eq!(combine_buttons(vec![Button::a]), btn(Button::a));
    assert_eq!(
        combine_buttons(vec![Button::a, Button::b]),
        Key::Button(ButtonKind::Simultaneous(vec![Button::a, Button::b]))
    );
}

#[test]
fn element_accessors() {
    let held = Element::NoOtherKeys(Box::new(Element::Held(dir(Direction::DB))));
    assert_eq!(held.get_key(), Some(&dir(Direction::DB)));
    assert_eq!(held.get_direction(), Some(Direction::DB));
    assert!(held.is_ordinal());
    assert!(held.no_other_keys());
    assert_eq!(held.get_key_pressed(), None);
    let four = Element::Pressed(Key::Direction(DirectionKind::FourWay(Direction::D)));
    assert!(four.is_four_way());
    assert!(four.four_way_match(&Element::Pressed(dir(Direction::DF))));
    assert!(!four.four_way_match(&Element::Pressed(dir(Direction::UF))));
    assert!(Direction::B.four_way_match(&Direction::UB));
    assert_eq!(Element::NoInput.get_key(), None);
}

#[test]
fn exact_sequence_needs_a_contiguous_window() {
    let p = |k: Key| Element::Pressed(k);
    let input = vec![
        p(dir(Direction::D)),
        p(dir(Direction::DF)),
        p(dir(Direction::F)),
        p(btn(Button::a)),
    ];
    let qcf = vec![p(dir(Direction::DF)), p(dir(Direction::F)), p(btn(Button::a))];
    assert!(matches_sequence_exact(&input, &qcf));
    let gap = vec![p(dir(Direction::D)), p(dir(Direction::F))];
    assert!(!matches_sequence_exact(&input, &gap));
    assert!(!matches_sequence_exact(&input, &[]));
    assert!(!matches_sequence_exact(&qcf[..1], &qcf));
}

#[test]
fn first_two_directions() {
    let elems = vec![
        Element::Pressed(btn(Button::x)),
        Element::Pressed(dir(Direction::D)),
        Element::NoInput,
        Element::Held(dir(Direction::F)),
        Element::Pressed(dir(Direction::U)),
    ];
    assert_eq!(get_dir_tuple(&elems), Some((Direction::D, Direction::F)));
    assert_eq!(get_dir_tuple(&elems[..3]), None);
}

#[test]
fn inbetweens_are_dropped() {
    let v = vec![
        Element::Pressed(btn(Button::a)),
        Element::NoInput,
        Element::Released(btn(Button::b), 30),
        Element::NoInput,
    ];
    assert_eq!(
        remove_inbetweens(v),
        vec![Element::Pressed(btn(Button::a)), Element::Released(btn(Button::b), 30)]
    );
    assert_eq!(remove_inbetweens(vec![Element::NoInput]), vec![Element::NoInput]);
}

#[test]
fn command_list_defaults() {
    let cmd = Command {
        name: String::from("qcf_a"),
        command: Sequence { elements: vec![Element::Pressed(btn(Button::a))] },
        time: 15,
        buffer_time: 1,
    };
    let list = CommandList::new(vec![cmd]);
    assert_eq!(list.commands.len(), 1);
    assert_eq!(list.default_time, 15);
    assert_eq!(list.default_buffer_time, 1);
}

#[test]
fn state_kinds_parse_their_letters() {
    assert_eq!(StateType::parse("c"), Some(StateType::C));
    assert_eq!(StateType::parse("x"), None);
    assert_eq!(StateType::parse("ss"), None);
    assert_eq!(StateType::L.code(), 'l');
    assert_eq!(StateType::default(), StateType::S);
    assert_eq!(MoveType::parse("h"), Some(MoveType::H));
    assert_eq!(MoveType::default(), MoveType::I);
    assert_eq!(Physics::parse("n"), Some(Physics::N));
    assert_eq!(Physics::default(), Physics::N);
}

fn command_of(keys: Vec<Key>) -> Command {
    Command {
        name: String::from("move"),
        command: Sequence { elements: keys.into_iter().map(Element::Pressed).collect() },
        time: 15,
        buffer_time: 1,
    }
}

#[test]
fn sequence_matches_in_order_with_gaps() {
    let p = |k: Key| Element::Pressed(k);
    let qcf = command_of(vec![dir(Direction::D), dir(Direction::DF), dir(Direction::F)]);
    let direct = vec![p(dir(Direction::D)), p(btn(Button::x)), p(dir(Direction::DF)), p(dir(Direction::F))];
    assert!(matches_sequence(&qcf, &direct));
    let short = vec![p(dir(Direction::D)), p(dir(Direction::DF))];
    assert!(!matches_sequence(&qcf, &short));
    let wrong_order = vec![p(dir(Direction::F)), p(dir(Direction::DF)), p(dir(Direction::D))];
    assert!(!matches_sequence(&qcf, &wrong_order));
}

#[test]
fn diagonal_symbol_matches_two_cardinals() {
    let p = |k: Key| Element::Pressed(k);
    let qcf = command_of(vec![dir(Direction::D), dir(Direction::DF), dir(Direction::F)]);
    let split = vec![p(dir(Direction::D)), p(dir(Direction::F)), p(dir(Direction::F)), p(dir(Direction::F))];
    assert!(matches_sequence(&qcf, &split));
    let too_short = vec![p(dir(Direction::D)), p(dir(Direction::F)), p(dir(Direction::F))];
    assert!(!matches_sequence(&qcf, &too_short));
}

fn ch(s: &str) -> Vec<char> {
    s.chars().collect()
}

#[test]
fn directions_and_buttons_parse() {
    assert_eq!(Direction::parse(&ch(" DF ")), Some(Direction::DF));
    assert_eq!(Direction::parse(&ch("df")), None);
    assert_eq!(DirectionKind::parse(&ch("$D")), Some(DirectionKind::FourWay(Direction::D)));
    assert_eq!(DirectionKind::parse(&ch("UB")), Some(DirectionKind::Single(Direction::UB)));
    assert_eq!(
        ButtonKind::parse(&ch("a+b")),
        Some(ButtonKind::Simultaneous(vec![Button::a, Button::b]))
    );
    assert_eq!(ButtonKind::parse(&ch(" x ")), Some(ButtonKind::Single(Button::x)));
    assert_eq!(ButtonKind::parse(&ch("ab")), Some(ButtonKind::Single(Button::a)));
    assert_eq!(ButtonKind::parse(&ch("a+q")), None);
    assert_eq!(ButtonKind::parse(&ch("B")), None);
    assert_eq!(Button::from_char('s'), Some(Button::s));
    assert_eq!(Button::from_char('d'), None);
}

#[test]
fn keys_prefer_buttons_then_directions() {
    assert_eq!(Key::parse(&ch("a")), Some(btn(Button::a)));
    assert_eq!(Key::parse(&ch("B")), Some(dir(Direction::B)));
    assert_eq!(
        Key::parse(&ch("$B")),
        Some(Key::Direction(DirectionKind::FourWay(Direction::B)))
    );
    assert_eq!(Key::parse(&ch("q")), None);
}

#[test]
fn symbols_read_their_modifiers() {
    assert_eq!(Element::parse(&ch("~30a")), Some(Element::Released(btn(Button::a), 30)));
    assert_eq!(Element::parse(&ch("/DB")), Some(Element::Held(dir(Direction::DB))));
    assert_eq!(
        Element::parse(&ch(">~F")),
        Some(Element::NoOtherKeys(Box::new(Element::Released(dir(Direction::F), 0))))
    );
    assert_eq!(Element::parse(&ch("~a")), Some(Element::Released(btn(Button::a), 0)));
    assert_eq!(
        Element::parse(&ch("~99999999999a")),
        Some(Element::Released(btn(Button::a), 0))
    );
    assert_eq!(Element::parse(&ch("x")), Some(Element::Pressed(btn(Button::x))));
    assert_eq!(Element::parse(&ch("/")), None);
}

#[test]
fn commands_split_at_commas() {
    let seq = Sequence::parse(" ~D, DF, F, x ").unwrap();
    assert_eq!(
        seq.elements,
        vec![
            Element::Released(dir(Direction::D), 0),
            Element::Pressed(dir(Direction::DF)),
            Element::Pressed(dir(Direction::F)),
            Element::Pressed(btn(Button::x)),
        ]
    );
    assert_eq!(
        Sequence::parse("a+b").unwrap().elements,
        vec![Element::Pressed(Key::Button(ButtonKind::Simultaneous(vec![Button::a, Button::b])))]
    );
    assert!(Sequence::parse("D, q").is_none());
    assert!(Sequence::parse("D,").is_none());
}
