//! Input symbols of character commands (buttons, directions, and the
//! elements of a command sequence) and the matching of a sequence against
//! recent input.
use vstd::prelude::*;
use crate::lexer::{digits_value, is_digit, is_ws, skip_ws};

verus! {

#[allow(non_camel_case_types)]
#[derive(Debug, Copy, Clone, PartialEq, Eq, Hash, Structural)]
pub enum Button {
    a,
    b,
    c,
    x,
    y,
    z,
    s,
}

#[derive(Debug, Copy, Clone, PartialEq, Eq, Hash, Structural)]
pub enum Direction {
    B,
    DB,
    D,
    DF,
    F,
    UF,
    U,
    UB,
}

/// Whether the 4-way direction `d` covers the held direction `h`: a cardinal
/// direction covers itself and the two diagonals next to it.
pub open spec fn covers(d: Direction, h: Direction) -> bool {
    match d {
        Direction::B => h == Direction::B || h == Direction::DB || h == Direction::UB,
        Direction::D => h == Direction::D || h == Direction::DB || h == Direction::DF,
        Direction::U => h == Direction::U || h == Direction::UB || h == Direction::UF,
        Direction::F => h == Direction::F || h == Direction::DF || h == Direction::UF,
        _ => false,
    }
}

impl Direction {
    pub fn four_way_match(&self, other: &Direction) -> (r: bool)
        ensures
            r == covers(*self, *other),
    {
        match (self, other) {
            (Direction::B, Direction::DB)
            | (Direction::B, Direction::UB)
            | (Direction::B, Direction::B)
            | (Direction::D, Direction::DB)
            | (Direction::D, Direction::DF)
            | (Direction::D, Direction::D)
            | (Direction::U, Direction::UB)
            | (Direction::U, Direction::UF)
            | (Direction::U, Direction::U)
            | (Direction::F, Direction::DF)
            | (Direction::F, Direction::UF)
            | (Direction::F, Direction::F) => true,
            _ => false,
        }
    }
}

#[derive(Debug, Clone, PartialEq, Eq, Hash)]
pub enum ButtonKind {
    Simultaneous(Vec<Button>),
    Single(Button),
}

#[derive(Debug, Copy, Clone, PartialEq, Eq, Hash, Structural)]
pub enum DirectionKind {
    FourWay(Direction),
    Single(Direction),
}

#[derive(Debug, Clone, PartialEq, Eq, Hash)]
pub enum Key {
    Direction(DirectionKind),
    Button(ButtonKind),
}

/// Equality of keys, by the buttons each one lists.
pub open spec fn key_same(a: Key, b: Key) -> bool {
    match (a, b) {
        (Key::Direction(x), Key::Direction(y)) => x == y,
        (Key::Button(ButtonKind::Single(x)), Key::Button(ButtonKind::Single(y))) => x == y,
        (Key::Button(ButtonKind::Simultaneous(x)), Key::Button(ButtonKind::Simultaneous(y))) => x@
            == y@,
        _ => false,
    }
}

fn buttons_eq(x: &Vec<Button>, y: &Vec<Button>) -> (r: bool)
    ensures
        r == (x@ == y@),
{
    if x.len() != y.len() {
        return false;
    }
    let mut k: usize = 0;
    while k < x.len()
        invariant
            x@.len() == y@.len(),
            0 <= k <= x@.len(),
            forall|j: int| 0 <= j < k ==> x@[j] == y@[j],
        decreases x@.len() - k,
    {
        if x[k] != y[k] {
            return false;
        }
        k = k + 1;
    }
    proof {
        assert(x@ =~= y@);
    }
    true
}

impl Key {
    /// Whether two keys are the same; see [`key_same`].
    pub fn same(&self, other: &Key) -> (r: bool)
        ensures
            r == key_same(*self, *other),
    {
        match (self, other) {
            (Key::Direction(x), Key::Direction(y)) => *x == *y,
            (Key::Button(ButtonKind::Single(x)), Key::Button(ButtonKind::Single(y))) => *x == *y,
            (Key::Button(ButtonKind::Simultaneous(x)), Key::Button(ButtonKind::Simultaneous(y))) => {
                buttons_eq(x, y)
            },
            _ => false,
        }
    }
}

/// The key of several buttons pressed together, or of the one button given.
pub fn combine_buttons(buttons: Vec<Button>) -> (r: Key)
    requires
        buttons@.len() >= 1,
    ensures
        buttons@.len() > 1 ==> (r matches Key::Button(ButtonKind::Simultaneous(v)) && v@ == buttons@),
        buttons@.len() == 1 ==> r == Key::Button(ButtonKind::Single(buttons@[0])),
{
    if buttons.len() > 1 {
        Key::Button(ButtonKind::Simultaneous(buttons))
    } else {
        Key::Button(ButtonKind::Single(buttons[0]))
    }
}

/// The diagonal two cardinal directions make together (down-back,
/// down-forward, up-forward, up-back), else the first of them.
pub open spec fn ordinal_of(first: Direction, second: Direction) -> Direction {
    match (first, second) {
        (Direction::D, Direction::B) => Direction::DB,
        (Direction::D, Direction::F) => Direction::DF,
        (Direction::U, Direction::F) => Direction::UF,
        (Direction::U, Direction::B) => Direction::UB,
        _ => first,
    }
}

pub fn get_ordinal_pair(cardinals: (Direction, Direction)) -> (r: Key)
    ensures
        r == Key::Direction(DirectionKind::Single(ordinal_of(cardinals.0, cardinals.1))),
{
    let dir = match cardinals {
        (Direction::D, Direction::B) => Direction::DB,
        (Direction::D, Direction::F) => Direction::DF,
        (Direction::U, Direction::F) => Direction::UF,
        (Direction::U, Direction::B) => Direction::UB,
        _ => cardinals.0,
    };
    Key::Direction(DirectionKind::Single(dir))
}

fn has_direction(v: &Vec<Direction>, d: Direction) -> (r: bool)
    ensures
        r == v@.contains(d),
{
    let mut k: usize = 0;
    while k < v.len()
        invariant
            0 <= k <= v@.len(),
            forall|j: int| 0 <= j < k ==> v@[j] != d,
        decreases v@.len() - k,
    {
        if v[k] == d {
            return true;
        }
        k = k + 1;
    }
    false
}

/// The diagonal a set of held cardinal directions makes, checked in the
/// order down-back, down-forward, up-forward, up-back; else the first one
/// held.
pub open spec fn ordinal_of_set(c: Seq<Direction>) -> Direction {
    if c.contains(Direction::D) && c.contains(Direction::B) {
        Direction::DB
    } else if c.contains(Direction::D) && c.contains(Direction::F) {
        Direction::DF
    } else if c.contains(Direction::U) && c.contains(Direction::F) {
        Direction::UF
    } else if c.contains(Direction::U) && c.contains(Direction::B) {
        Direction::UB
    } else {
        c[0]
    }
}

pub fn get_ordinals(cardinals: Vec<Direction>) -> (r: Key)
    requires
        cardinals@.len() >= 1,
    ensures
        r == Key::Direction(DirectionKind::Single(ordinal_of_set(cardinals@))),
{
    let dir = if has_direction(&cardinals, Direction::D) && has_direction(&cardinals, Direction::B) {
        Direction::DB
    } else if has_direction(&cardinals, Direction::D) && has_direction(&cardinals, Direction::F) {
        Direction::DF
    } else if has_direction(&cardinals, Direction::U) && has_direction(&cardinals, Direction::F) {
        Direction::UF
    } else if has_direction(&cardinals, Direction::U) && has_direction(&cardinals, Direction::B) {
        Direction::UB
    } else {
        cardinals[0]
    };
    Key::Direction(DirectionKind::Single(dir))
}

/// One symbol of a command sequence: a key released (after being held for a
/// number of ticks), held, or pressed; a symbol that no other key may come
/// between; or no input.
#[derive(Debug, PartialEq, Eq, Hash)]
pub enum Element {
    Released(Key, u32),
    Held(Key),
    NoOtherKeys(Box<Element>),
    Pressed(Key),
    NoInput,
}

/// The key of an element, looking through the no-other-keys marker.
pub open spec fn key_of(e: Element) -> Option<Key>
    decreases e,
{
    match e {
        Element::Released(k, _) => Some(k),
        Element::Held(k) => Some(k),
        Element::Pressed(k) => Some(k),
        Element::NoOtherKeys(inner) => key_of(*inner),
        Element::NoInput => None,
    }
}

/// The key of a plain press.
pub open spec fn pressed_key(e: Element) -> Option<Key> {
    match e {
        Element::Pressed(k) => Some(k),
        _ => None,
    }
}

pub open spec fn single_direction(e: Element) -> Option<Direction> {
    match key_of(e) {
        Some(Key::Direction(DirectionKind::Single(d))) => Some(d),
        _ => None,
    }
}

impl Element {
    pub fn no_other_keys(&self) -> (r: bool)
        ensures
            r == (*self is NoOtherKeys),
    {
        match self {
            Element::NoOtherKeys(_) => true,
            _ => false,
        }
    }

    pub fn get_key(&self) -> (r: Option<&Key>)
        ensures
            match key_of(*self) {
                Some(k) => r is Some && *r->Some_0 == k,
                None => r is None,
            },
        decreases self,
    {
        match self {
            Element::Released(key, _) => Some(key),
            Element::Held(key) => Some(key),
            Element::Pressed(key) => Some(key),
            Element::NoOtherKeys(elm) => elm.get_key(),
            _ => None,
        }
    }

    pub fn get_direction(&self) -> (r: Option<Direction>)
        ensures
            r == single_direction(*self),
    {
        match self.get_key() {
            Some(Key::Direction(DirectionKind::Single(dir))) => Some(*dir),
            _ => None,
        }
    }

    pub fn get_key_pressed(&self) -> (r: Option<&Key>)
        ensures
            match pressed_key(*self) {
                Some(k) => r is Some && *r->Some_0 == k,
                None => r is None,
            },
    {
        match self {
            Element::Pressed(key) => Some(key),
            _ => None,
        }
    }

    /// Whether the element's key is one diagonal direction.
    pub fn is_ordinal(&self) -> (r: bool)
        ensures
            r == (single_direction(*self) matches Some(d) && (d == Direction::DB || d
                == Direction::DF || d == Direction::UB || d == Direction::UF)),
    {
        match self.get_key() {
            Some(Key::Direction(DirectionKind::Single(Direction::DB)))
            | Some(Key::Direction(DirectionKind::Single(Direction::DF)))
            | Some(Key::Direction(DirectionKind::Single(Direction::UB)))
            | Some(Key::Direction(DirectionKind::Single(Direction::UF))) => true,
            _ => false,
        }
    }

    /// Whether the element's key is a 4-way direction.
    pub fn is_four_way(&self) -> (r: bool)
        ensures
            r == (key_of(*self) matches Some(Key::Direction(DirectionKind::FourWay(_)))),
    {
        match self.get_key() {
            Some(Key::Direction(DirectionKind::FourWay(_))) => true,
            _ => false,
        }
    }

    /// Whether this element's 4-way direction covers the single direction of
    /// `elem`.
    pub fn four_way_match(&self, elem: &Element) -> (r: bool)
        ensures
            r == (key_of(*self) matches Some(Key::Direction(DirectionKind::FourWay(d1)))
                && single_direction(*elem) matches Some(d2) && covers(d1, d2)),
    {
        match self.get_key() {
            Some(Key::Direction(DirectionKind::FourWay(dir1))) => match elem.get_key() {
                Some(Key::Direction(DirectionKind::Single(dir2))) => dir1.four_way_match(dir2),
                _ => false,
            },
            _ => false,
        }
    }
}

/// Whether two elements are presses of the same key, or both no press.
pub open spec fn pressed_same(a: Element, b: Element) -> bool {
    match (pressed_key(a), pressed_key(b)) {
        (None, None) => true,
        (Some(x), Some(y)) => key_same(x, y),
        _ => false,
    }
}

/// Whether the window of `rel` starting at `w` presses what `cmd` presses.
pub open spec fn window_matches(rel: Seq<Element>, cmd: Seq<Element>, w: int) -> bool {
    forall|i: int| 0 <= i < cmd.len() ==> pressed_same(#[trigger] rel[w + i], cmd[i])
}

fn pressed_same_exec(a: &Element, b: &Element) -> (r: bool)
    ensures
        r == pressed_same(*a, *b),
{
    match (a.get_key_pressed(), b.get_key_pressed()) {
        (None, None) => true,
        (Some(x), Some(y)) => x.same(y),
        _ => false,
    }
}

/// Whether some contiguous window of `relevant_cmds` presses exactly the
/// keys of `cmd`, in order.
pub fn matches_sequence_exact(relevant_cmds: &[Element], cmd: &[Element]) -> (r: bool)
    ensures
        r == (cmd@.len() > 0 && relevant_cmds@.len() >= cmd@.len() && exists|w: int|
            0 <= w <= relevant_cmds@.len() - cmd@.len() && #[trigger] window_matches(
                relevant_cmds@,
                cmd@,
                w,
            )),
{
    if cmd.len() == 0 || relevant_cmds.len() < cmd.len() {
        return false;
    }
    let n = relevant_cmds.len();
    let m = cmd.len();
    let mut w: usize = 0;
    while w <= n - m
        invariant
            n == relevant_cmds@.len(),
            m == cmd@.len(),
            0 < m <= n,
            0 <= w <= n - m + 1,
            forall|v: int| 0 <= v < w ==> !#[trigger] window_matches(relevant_cmds@, cmd@, v),
        decreases n - w,
    {
        let mut i: usize = 0;
        let mut ok = true;
        while i < m && ok
            invariant
                n == relevant_cmds@.len(),
                m == cmd@.len(),
                w + m <= n,
                0 <= i <= m,
                ok ==> forall|j: int| 0 <= j < i ==> pressed_same(#[trigger] relevant_cmds@[w + j], cmd@[j]),
                !ok ==> !window_matches(relevant_cmds@, cmd@, w as int),
            decreases m - i, if ok { 1int } else { 0int },
        {
            if !pressed_same_exec(&relevant_cmds[w + i], &cmd[i]) {
                ok = false;
                proof {
                    assert(!pressed_same(relevant_cmds@[w + i], cmd@[i as int]));
                }
            } else {
                i = i + 1;
            }
        }
        if ok {
            proof {
                assert(window_matches(relevant_cmds@, cmd@, w as int));
            }
            return true;
        }
        w = w + 1;
    }
    false
}

/// Scanning `s` from `i` with the first direction `first` already found:
/// the first two single directions, if there are two.
pub open spec fn pair_from(s: Seq<Element>, i: int, first: Option<Direction>) -> Option<(Direction, Direction)>
    decreases s.len() - i,
{
    if i < 0 || i >= s.len() {
        None
    } else {
        match single_direction(s[i]) {
            Some(d) => match first {
                None => pair_from(s, i + 1, Some(d)),
                Some(f) => Some((f, d)),
            },
            None => pair_from(s, i + 1, first),
        }
    }
}

/// The first two single directions among `elems`, if there are two.
pub fn get_dir_tuple(elems: &[Element]) -> (r: Option<(Direction, Direction)>)
    ensures
        r == pair_from(elems@, 0, None),
{
    let mut first: Option<Direction> = None;
    let mut k: usize = 0;
    while k < elems.len()
        invariant
            0 <= k <= elems@.len(),
            pair_from(elems@, k as int, first) == pair_from(elems@, 0, None),
        decreases elems@.len() - k,
    {
        match elems[k].get_direction() {
            Some(d) => {
                match first {
                    None => {
                        first = Some(d);
                    },
                    Some(d1) => {
                        return Some((d1, d));
                    },
                }
            },
            None => {},
        }
        k = k + 1;
    }
    None
}

/// Whether two optional keys are both absent or the same key.
pub open spec fn opt_key_same(a: Option<Key>, b: Option<Key>) -> bool {
    match (a, b) {
        (None, None) => true,
        (Some(x), Some(y)) => key_same(x, y),
        _ => false,
    }
}

pub open spec fn is_diagonal(e: Element) -> bool {
    single_direction(e) matches Some(d) && (d == Direction::DB || d == Direction::DF || d
        == Direction::UB || d == Direction::UF)
}

/// Whether some even-length run of input from `last`, ending at or before
/// `j`, holds two directions that together make the diagonal `key`.
pub open spec fn ordinal_found(rel: Seq<Element>, key: Key, last: int, j: int) -> bool {
    exists|p: int| 0 <= p < (j - last) / 2 && #[trigger] pair_makes(rel, key, last, p)
}

/// Whether the first `2 * (p + 1)` inputs from `last` hold two directions
/// that together make the diagonal `key`.
pub open spec fn pair_makes(rel: Seq<Element>, key: Key, last: int, p: int) -> bool {
    match pair_from(rel.subrange(last, last + (p + 1) * 2), 0, None) {
        Some(t) => key_same(key, Key::Direction(DirectionKind::Single(ordinal_of(t.0, t.1)))),
        None => false,
    }
}

/// The matcher's scan: symbol `i` of the command against input `j`, the last
/// match having been at input `last`. A symbol matches an input of the same
/// key; a diagonal also matches two directions making it that were entered
/// since the last match. The command matches when every symbol matched.
pub open spec fn scan(cmd: Seq<Element>, rel: Seq<Element>, i: int, j: int, last: int) -> bool
    decreases rel.len() - j,
{
    if !(0 <= i < cmd.len() && 0 <= j < rel.len()) {
        i >= cmd.len()
    } else if opt_key_same(key_of(cmd[i]), key_of(rel[j])) {
        scan(cmd, rel, i + 1, j + 1, j)
    } else if is_diagonal(cmd[i]) && ordinal_found(rel, key_of(cmd[i])->Some_0, last, j) {
        scan(cmd, rel, i + 1, j + 1, j)
    } else {
        scan(cmd, rel, i, j + 1, last)
    }
}

fn opt_key_same_exec(a: Option<&Key>, b: Option<&Key>) -> (r: bool)
    ensures
        r == opt_key_same(
            match a {
                Some(k) => Some(*k),
                None => None,
            },
            match b {
                Some(k) => Some(*k),
                None => None,
            },
        ),
{
    match (a, b) {
        (None, None) => true,
        (Some(x), Some(y)) => x.same(y),
        _ => false,
    }
}

/// Whether the command's symbols are found in order in `relevant_cmds`;
/// see [`scan`].
pub fn matches_sequence(cmd: &Command, relevant_cmds: &[Element]) -> (r: bool)
    ensures
        r == scan(cmd.command.elements@, relevant_cmds@, 0, 0, 0),
{
    let elems = &cmd.command.elements;
    let n = elems.len();
    let m = relevant_cmds.len();
    let mut i: usize = 0;
    let mut j: usize = 0;
    let mut last_matched: usize = 0;
    while i < n && j < m
        invariant
            n == elems@.len(),
            m == relevant_cmds@.len(),
            0 <= i <= n,
            0 <= j <= m,
            last_matched <= j,
            scan(elems@, relevant_cmds@, i as int, j as int, last_matched as int) == scan(
                elems@,
                relevant_cmds@,
                0,
                0,
                0,
            ),
        decreases m - j,
    {
        let ghost ci = elems@[i as int];
        if opt_key_same_exec(elems[i].get_key(), relevant_cmds[j].get_key()) {
            last_matched = j;
            i = i + 1;
        } else if elems[i].is_ordinal() {
            let total_pairs = (j - last_matched) / 2;
            let mut pairs_seen: usize = 0;
            let mut found = false;
            while pairs_seen < total_pairs && !found
                invariant
                    m == relevant_cmds@.len(),
                    last_matched <= j < m,
                    total_pairs == (j - last_matched) / 2,
                    0 <= pairs_seen <= total_pairs,
                    i < n == elems@.len(),
                    is_diagonal(elems@[i as int]),
                    found ==> ordinal_found(relevant_cmds@, key_of(elems@[i as int])->Some_0, last_matched as int, j as int),
                    !found ==> forall|p: int| 0 <= p < pairs_seen ==> !#[trigger] pair_makes(
                        relevant_cmds@,
                        key_of(elems@[i as int])->Some_0,
                        last_matched as int,
                        p,
                    ),
                decreases total_pairs - pairs_seen, if found { 0int } else { 1int },
            {
                let end = last_matched + (pairs_seen + 1) * 2;
                let window = vstd::slice::slice_subrange(relevant_cmds, last_matched, end);
                let dir_tuple = get_dir_tuple(window);
                match dir_tuple {
                    Some(t) => {
                        let k = elems[i].get_key();
                        let hit = match k {
                            Some(key) => key.same(&get_ordinal_pair(t)),
                            None => false,
                        };
                        if hit {
                            proof {
                                assert(pair_makes(
                                    relevant_cmds@,
                                    key_of(elems@[i as int])->Some_0,
                                    last_matched as int,
                                    pairs_seen as int,
                                ));
                            }
                            found = true;
                        } else {
                            pairs_seen = pairs_seen + 1;
                        }
                    },
                    None => {
                        pairs_seen = pairs_seen + 1;
                    },
                }
            }
            if found {
                last_matched = j;
                i = i + 1;
            }
        }
        j = j + 1;
    }
    i >= n
}

/// Whether the element names a key (anything but no input).
pub open spec fn keyed(e: Element) -> bool {
    key_of(e) is Some
}

/// The elements of `s` that name a key, in order.
pub open spec fn keyed_only(s: Seq<Element>) -> Seq<Element>
    decreases s.len(),
{
    if s.len() == 0 {
        Seq::empty()
    } else if keyed(s[0]) {
        seq![s[0]] + keyed_only(s.drop_first())
    } else {
        keyed_only(s.drop_first())
    }
}

/// Drops the elements without a key, unless there is only one element.
pub fn remove_inbetweens(cmds: Vec<Element>) -> (r: Vec<Element>)
    ensures
        cmds@.len() == 1 ==> r@ == cmds@,
        cmds@.len() != 1 ==> r@ == keyed_only(cmds@),
{
    let mut result = cmds;
    if result.len() == 1 {
        return result;
    }
    let ghost orig = result@;
    let n = result.len();
    let mut j: usize = n;
    while j > 0
        invariant
            0 <= j <= n == orig.len(),
            result@ == orig.subrange(0, j as int) + keyed_only(orig.subrange(j as int, n as int)),
        decreases j,
    {
        let i = j - 1;
        proof {
            assert(result@[i as int] == orig[i as int]);
            assert(orig.subrange(i as int, n as int).drop_first() == orig.subrange(j as int, n as int));
            assert(orig.subrange(i as int, n as int)[0] == orig[i as int]);
        }
        if result[i].get_key().is_none() {
            result.remove(i);
            proof {
                assert(result@ == orig.subrange(0, i as int) + keyed_only(orig.subrange(j as int, n as int)));
            }
        } else {
            proof {
                assert(orig.subrange(0, j as int) == orig.subrange(0, i as int).push(orig[i as int]));
                assert(result@ == orig.subrange(0, i as int) + (seq![orig[i as int]] + keyed_only(
                    orig.subrange(j as int, n as int),
                )));
            }
        }
        j = i;
    }
    proof {
        assert(orig.subrange(0, n as int) == orig);
        assert(orig.subrange(0, 0) + keyed_only(orig) == keyed_only(orig));
    }
    result
}

/// The symbols of one command, in input order.
#[derive(Debug, PartialEq, Eq, Hash)]
pub struct Sequence {
    pub elements: Vec<Element>,
}

/// A named command: its sequence, the ticks it must be entered within, and
/// how long it stays recognised.
#[derive(Debug, PartialEq, Eq, Hash)]
pub struct Command {
    pub name: String,
    pub command: Sequence,
    pub time: i32,
    pub buffer_time: i32,
}

/// The commands of a character, with the default timings.
#[derive(Debug)]
pub struct CommandList {
    pub commands: Vec<Command>,
    pub default_time: u32,
    pub default_buffer_time: u32,
}

impl CommandList {
    /// The default number of ticks a command must be entered within.
    pub const DEFAULT_TIME: u32 = 15;
    /// The default number of ticks a command stays recognised.
    pub const DEFAULT_BUFFER_TIME: u32 = 1;

    pub fn new(commands: Vec<Command>) -> (r: CommandList)
        ensures
            r.commands@ == commands@,
            r.default_time == Self::DEFAULT_TIME,
            r.default_buffer_time == Self::DEFAULT_BUFFER_TIME,
    {
        CommandList {
            commands,
            default_time: Self::DEFAULT_TIME,
            default_buffer_time: Self::DEFAULT_BUFFER_TIME,
        }
    }

}

/// The end of `s[..i]` once trailing whitespace is dropped.
pub open spec fn trim_end(s: Seq<char>, i: int) -> int
    decreases i,
{
    if i <= 0 || i > s.len() || !is_ws(s[i - 1]) {
        i
    } else {
        trim_end(s, i - 1)
    }
}

/// `s` without leading and trailing whitespace.
pub open spec fn trim(s: Seq<char>) -> Seq<char> {
    let a = skip_ws(s, 0);
    let b = trim_end(s, s.len() as int);
    if b <= a {
        Seq::empty()
    } else {
        s.subrange(a, b)
    }
}

proof fn lemma_trim_end_bounds(s: Seq<char>, i: int)
    requires
        0 <= i <= s.len(),
    ensures
        0 <= trim_end(s, i) <= i,
        trim_end(s, i) > 0 ==> !is_ws(s[trim_end(s, i) - 1]),
    decreases i,
{
    if i > 0 && is_ws(s[i - 1]) {
        lemma_trim_end_bounds(s, i - 1);
    }
}

proof fn lemma_skip_ws_bounds(s: Seq<char>, i: int)
    requires
        0 <= i <= s.len(),
    ensures
        i <= skip_ws(s, i) <= s.len(),
    decreases s.len() - i,
{
    if i < s.len() && is_ws(s[i]) {
        lemma_skip_ws_bounds(s, i + 1);
    }
}

fn is_ws_char(c: char) -> (r: bool)
    ensures
        r == is_ws(c),
{
    c == ' ' || c == '\t' || c == '\r' || c == '\n'
}

/// Drops leading and trailing whitespace.
pub fn trim_chars(s: &[char]) -> (r: Vec<char>)
    ensures
        r@ == trim(s@),
{
    let n = s.len();
    let mut a: usize = 0;
    while a < n && is_ws_char(s[a])
        invariant
            0 <= a <= n == s@.len(),
            skip_ws(s@, a as int) == skip_ws(s@, 0),
        decreases n - a,
    {
        a = a + 1;
    }
    let mut b: usize = n;
    while b > 0 && is_ws_char(s[b - 1])
        invariant
            0 <= b <= n == s@.len(),
            trim_end(s@, b as int) == trim_end(s@, n as int),
        decreases b,
    {
        b = b - 1;
    }
    let mut out: Vec<char> = Vec::new();
    if b > a {
        let mut k = a;
        while k < b
            invariant
                a <= k <= b <= n == s@.len(),
                out@ == s@.subrange(a as int, k as int),
            decreases b - k,
        {
            out.push(s[k]);
            proof {
                assert(s@.subrange(a as int, k + 1) == s@.subrange(a as int, k as int).push(s@[k as int]));
            }
            k = k + 1;
        }
    }
    proof {
        if b <= a {
            assert(out@ =~= Seq::<char>::empty());
        }
    }
    out
}

/// The button a lower-case letter names.
pub open spec fn button_of(c: char) -> Option<Button> {
    if c == 'a' {
        Some(Button::a)
    } else if c == 'b' {
        Some(Button::b)
    } else if c == 'c' {
        Some(Button::c)
    } else if c == 'x' {
        Some(Button::x)
    } else if c == 'y' {
        Some(Button::y)
    } else if c == 'z' {
        Some(Button::z)
    } else if c == 's' {
        Some(Button::s)
    } else {
        None
    }
}

impl Button {
    pub fn from_char(c: char) -> (r: Option<Button>)
        ensures
            r == button_of(c),
    {
        match c {
            'a' => Some(Button::a),
            'b' => Some(Button::b),
            'c' => Some(Button::c),
            'x' => Some(Button::x),
            'y' => Some(Button::y),
            'z' => Some(Button::z),
            's' => Some(Button::s),
            _ => None,
        }
    }
}

/// The direction an upper-case name (`B`, `DB`, `D`, `DF`, `F`, `UF`, `U`,
/// `UB`) names, after trimming.
pub open spec fn direction_of(s: Seq<char>) -> Option<Direction> {
    let t = trim(s);
    if t == seq!['B'] {
        Some(Direction::B)
    } else if t == seq!['D', 'B'] {
        Some(Direction::DB)
    } else if t == seq!['D'] {
        Some(Direction::D)
    } else if t == seq!['D', 'F'] {
        Some(Direction::DF)
    } else if t == seq!['F'] {
        Some(Direction::F)
    } else if t == seq!['U', 'F'] {
        Some(Direction::UF)
    } else if t == seq!['U'] {
        Some(Direction::U)
    } else if t == seq!['U', 'B'] {
        Some(Direction::UB)
    } else {
        None
    }
}

/// A direction, or with a leading `$` a 4-way direction.
pub open spec fn direction_kind_of(s: Seq<char>) -> Option<DirectionKind> {
    let t = trim(s);
    if t.len() > 0 && t[0] == '$' {
        match direction_of(s.drop_first()) {
            Some(d) => Some(DirectionKind::FourWay(d)),
            None => None,
        }
    } else {
        match direction_of(s) {
            Some(d) => Some(DirectionKind::Single(d)),
            None => None,
        }
    }
}

impl Direction {
    pub fn parse(s: &[char]) -> (r: Option<Direction>)
        ensures
            r == direction_of(s@),
    {
        let t = trim_chars(s);
        let t = t.as_slice();
        if crate::lexer::is1(t, 'B') {
            Some(Direction::B)
        } else if crate::lexer::is2(t, 'D', 'B') {
            Some(Direction::DB)
        } else if crate::lexer::is1(t, 'D') {
            Some(Direction::D)
        } else if crate::lexer::is2(t, 'D', 'F') {
            Some(Direction::DF)
        } else if crate::lexer::is1(t, 'F') {
            Some(Direction::F)
        } else if crate::lexer::is2(t, 'U', 'F') {
            Some(Direction::UF)
        } else if crate::lexer::is1(t, 'U') {
            Some(Direction::U)
        } else if crate::lexer::is2(t, 'U', 'B') {
            Some(Direction::UB)
        } else {
            None
        }
    }
}

impl DirectionKind {
    pub fn parse(s: &[char]) -> (r: Option<DirectionKind>)
        ensures
            r == direction_kind_of(s@),
    {
        let t = trim_chars(s);
        if t.len() > 0 && t[0] == '$' {
            proof {
                assert(s@.len() > 0) by {
                    if s@.len() == 0 {
                        assert(trim(s@) =~= Seq::<char>::empty());
                    }
                }
            }
            let rest = vstd::slice::slice_subrange(s, 1, s.len());
            proof {
                assert(rest@ =~= s@.drop_first());
            }
            match Direction::parse(rest) {
                Some(d) => Some(DirectionKind::FourWay(d)),
                None => None,
            }
        } else {
            match Direction::parse(s) {
                Some(d) => Some(DirectionKind::Single(d)),
                None => None,
            }
        }
    }
}

/// The buttons named by the characters of `t` other than `+`, if each one
/// names a button.
pub open spec fn buttons_of(t: Seq<char>) -> Option<Seq<Button>>
    decreases t.len(),
{
    if t.len() == 0 {
        Some(Seq::empty())
    } else {
        match buttons_of(t.drop_last()) {
            None => None,
            Some(bs) => if t.last() == '+' {
                Some(bs)
            } else {
                match button_of(t.last()) {
                    Some(button) => Some(bs.push(button)),
                    None => None,
                }
            },
        }
    }
}

/// Whether `bk` is what `s` reads as: with a `+`, the buttons pressed
/// together; otherwise the button of the first character after trimming.
pub open spec fn button_kind_parses(s: Seq<char>, bk: ButtonKind) -> bool {
    if s.contains('+') {
        (buttons_of(trim(s)) matches Some(bs) && (bk matches ButtonKind::Simultaneous(v) && v@ == bs))
    } else {
        trim(s).len() > 0 && (button_of(trim(s)[0]) matches Some(button) && bk == ButtonKind::Single(button))
    }
}

/// Whether `s` names no button.
pub open spec fn button_kind_fails(s: Seq<char>) -> bool {
    if s.contains('+') {
        buttons_of(trim(s)) is None
    } else {
        trim(s).len() == 0 || button_of(trim(s)[0]) is None
    }
}

impl ButtonKind {
    pub fn parse(s: &[char]) -> (r: Option<ButtonKind>)
        ensures
            button_kind_fails(s@) ==> r is None,
            !button_kind_fails(s@) ==> (r matches Some(bk) && button_kind_parses(s@, bk)),
    {
        let t = trim_chars(s);
        if crate::lexer::contains_char(s, '+') {
            let mut bs: Vec<Button> = Vec::new();
            let mut k: usize = 0;
            while k < t.len()
                invariant
                    0 <= k <= t@.len(),
                    t@ == trim(s@),
                    s@.contains('+'),
                    buttons_of(t@.subrange(0, k as int)) == Some(bs@),
                decreases t@.len() - k,
            {
                let c = t[k];
                proof {
                    assert(t@.subrange(0, k + 1).drop_last() == t@.subrange(0, k as int));
                    assert(t@.subrange(0, k + 1).last() == c);
                }
                if c != '+' {
                    match Button::from_char(c) {
                        Some(button) => {
                            bs.push(button);
                        },
                        None => {
                            proof {
                                lemma_buttons_of_prefix_none(t@, k as int + 1);
                            }
                            return None;
                        },
                    }
                }
                k = k + 1;
            }
            proof {
                assert(t@.subrange(0, t@.len() as int) == t@);
            }
            Some(ButtonKind::Simultaneous(bs))
        } else {
            if t.len() == 0 {
                return None;
            }
            match Button::from_char(t[0]) {
                Some(button) => Some(ButtonKind::Single(button)),
                None => None,
            }
        }
    }
}

proof fn lemma_buttons_of_prefix_none(t: Seq<char>, k: int)
    requires
        0 <= k <= t.len(),
        buttons_of(t.subrange(0, k)) is None,
    ensures
        buttons_of(t) is None,
    decreases t.len() - k,
{
    if k < t.len() {
        assert(t.subrange(0, k + 1).drop_last() == t.subrange(0, k));
        lemma_buttons_of_prefix_none(t, k + 1);
    } else {
        assert(t.subrange(0, k) == t);
    }
}

/// Whether `k` is what `s` reads as: a button kind if `s` names one, else a
/// direction kind.
pub open spec fn key_parses(s: Seq<char>, k: Key) -> bool {
    if !button_kind_fails(s) {
        k matches Key::Button(bk) && button_kind_parses(s, bk)
    } else {
        direction_kind_of(s) matches Some(dk) && k == Key::Direction(dk)
    }
}

/// Whether `s` names neither buttons nor a direction.
pub open spec fn key_fails(s: Seq<char>) -> bool {
    button_kind_fails(s) && direction_kind_of(s) is None
}

impl Key {
    pub fn parse(s: &[char]) -> (r: Option<Key>)
        ensures
            key_fails(s@) ==> r is None,
            !key_fails(s@) ==> (r matches Some(k) && key_parses(s@, k)),
    {
        match ButtonKind::parse(s) {
            Some(bk) => Some(Key::Button(bk)),
            None => match DirectionKind::parse(s) {
                Some(dk) => Some(Key::Direction(dk)),
                None => None,
            },
        }
    }
}

/// The modifiers in front of a command symbol: `/` held, `~` released
/// (optionally after a number of ticks), `>` no other keys in between.
#[derive(Debug, Clone, Copy, PartialEq, Eq, Structural)]
pub struct Modifiers {
    pub held: bool,
    pub released: bool,
    pub no_other_keys: bool,
    pub ticks: Option<u32>,
}

/// The first position at or after `i` that is not a decimal digit.
pub open spec fn digits_end(sym: Seq<char>, i: int) -> int
    decreases sym.len() - i,
{
    if i < 0 || i >= sym.len() || !is_digit(sym[i]) {
        i
    } else {
        digits_end(sym, i + 1)
    }
}

/// A tick count: the value of the digits, if it fits in 32 bits.
pub open spec fn ticks_of(digits: Seq<char>) -> Option<u32> {
    if digits_value(digits) <= u32::MAX {
        Some(digits_value(digits) as u32)
    } else {
        None
    }
}

/// Reads the modifiers of a symbol from position `i`: the modifiers, the
/// characters that a `~` and its ticks were followed by, and where the key
/// text proper begins.
pub open spec fn scan_modifiers(sym: Seq<char>, i: int, m: Modifiers, cap: Seq<char>) -> (Modifiers, Seq<char>, int)
    decreases sym.len() - i,
{
    if i < 0 || i >= sym.len() {
        (m, cap, sym.len() as int)
    } else if sym[i] == '/' {
        scan_modifiers(sym, i + 1, Modifiers { held: true, ..m }, cap)
    } else if sym[i] == '>' {
        scan_modifiers(sym, i + 1, Modifiers { no_other_keys: true, ..m }, cap)
    } else if sym[i] == '~' {
        let e = digits_end(sym, i + 1);
        let digits = sym.subrange(i + 1, e);
        let m2 = Modifiers {
            released: true,
            ticks: if digits.len() > 0 {
                ticks_of(digits)
            } else {
                m.ticks
            },
            ..m
        };
        if e < i + 1 || e > sym.len() {
            (m2, cap, sym.len() as int)
        } else if e < sym.len() {
            scan_modifiers(sym, e + 1, m2, cap.push(sym[e]))
        } else {
            scan_modifiers(sym, e, m2, cap)
        }
    } else {
        (m, cap, i)
    }
}

/// No modifier at all.
pub open spec fn no_modifiers() -> Modifiers {
    Modifiers { held: false, released: false, no_other_keys: false, ticks: None }
}

/// The key text of a symbol, after its modifiers.
pub open spec fn key_text(sym: Seq<char>) -> Seq<char> {
    let (_, cap, j) = scan_modifiers(sym, 0, no_modifiers(), Seq::empty());
    cap + sym.subrange(j, sym.len() as int)
}

/// The element a symbol with modifiers `m` and key `k` stands for.
pub open spec fn build_element(m: Modifiers, k: Key) -> Element {
    let base = if m.held {
        Element::Held(k)
    } else if m.released {
        Element::Released(
            k,
            match m.ticks {
                Some(t) => t,
                None => 0,
            },
        )
    } else {
        Element::Pressed(k)
    };
    if m.no_other_keys {
        Element::NoOtherKeys(Box::new(base))
    } else {
        base
    }
}

/// Whether `e` is what the symbol text `sym` reads as.
pub open spec fn element_parses(sym: Seq<char>, e: Element) -> bool {
    !key_fails(key_text(sym)) && exists|k: Key|
        #[trigger] key_parses(key_text(sym), k) && e == build_element(
            scan_modifiers(sym, 0, no_modifiers(), Seq::empty()).0,
            k,
        )
}

fn digits_end_exec(sym: &[char], i: usize) -> (r: usize)
    requires
        i <= sym@.len(),
    ensures
        r == digits_end(sym@, i as int),
        i <= r <= sym@.len(),
        forall|k: int| i <= k < r ==> is_digit(#[trigger] sym@[k]),
{
    let mut e = i;
    while e < sym.len() && '0' <= sym[e] && sym[e] <= '9'
        invariant
            i <= e <= sym@.len(),
            digits_end(sym@, e as int) == digits_end(sym@, i as int),
            forall|k: int| i <= k < e ==> is_digit(#[trigger] sym@[k]),
        decreases sym@.len() - e,
    {
        e = e + 1;
    }
    e
}

fn ticks_exec(sym: &[char], from: usize, to: usize) -> (r: Option<u32>)
    requires
        from <= to <= sym@.len(),
        forall|k: int| from <= k < to ==> is_digit(#[trigger] sym@[k]),
    ensures
        r == ticks_of(sym@.subrange(from as int, to as int)),
{
    let mut acc: u64 = 0;
    let mut k = from;
    while k < to
        invariant
            from <= k <= to <= sym@.len(),
            forall|j: int| from <= j < to ==> is_digit(#[trigger] sym@[j]),
            acc as int == if digits_value(sym@.subrange(from as int, k as int)) > u32::MAX {
                u32::MAX as int + 1
            } else {
                digits_value(sym@.subrange(from as int, k as int)) as int
            },
        decreases to - k,
    {
        let ghost pre = sym@.subrange(from as int, k as int);
        let ghost cur = sym@.subrange(from as int, k + 1);
        assert(cur.drop_last() == pre);
        assert(cur.last() == sym@[k as int]);
        assert(is_digit(sym@[k as int]));
        let d = (sym[k] as u32 - '0' as u32) as u64;
        let next = acc * 10 + d;
        acc = if next > 0xffff_ffff { 0x1_0000_0000 } else { next };
        k = k + 1;
    }
    if acc > 0xffff_ffff {
        None
    } else {
        Some(acc as u32)
    }
}

impl Element {
    /// Reads one command symbol: modifiers, then a key.
    pub fn parse(sym: &[char]) -> (r: Option<Element>)
        ensures
            key_fails(key_text(sym@)) ==> r is None,
            r matches Some(e) ==> element_parses(sym@, e),
            !key_fails(key_text(sym@)) ==> r is Some,
    {
        let n = sym.len();
        let mut m = Modifiers { held: false, released: false, no_other_keys: false, ticks: None };
        let mut cap: Vec<char> = Vec::new();
        let mut i: usize = 0;
        let mut stop = false;
        while i < n && !stop
            invariant
                0 <= i <= n == sym@.len(),
                !stop ==> scan_modifiers(sym@, i as int, m, cap@) == scan_modifiers(sym@, 0, no_modifiers(), Seq::empty()),
                stop ==> scan_modifiers(sym@, 0, no_modifiers(), Seq::empty()) == (m, cap@, i as int),
            decreases n - i, if stop { 0int } else { 1int },
        {
            let c = sym[i];
            if c == '/' {
                m.held = true;
                i = i + 1;
            } else if c == '>' {
                m.no_other_keys = true;
                i = i + 1;
            } else if c == '~' {
                let e = digits_end_exec(sym, i + 1);
                let t = if e > i + 1 { ticks_exec(sym, i + 1, e) } else { m.ticks };
                m.released = true;
                m.ticks = t;
                if e < n {
                    cap.push(sym[e]);
                    i = e + 1;
                } else {
                    i = e;
                }
            } else {
                stop = true;
            }
        }
        let ghost scanned = scan_modifiers(sym@, 0, no_modifiers(), Seq::empty());
        assert(scanned.0 == m && scanned.1 == cap@ && scanned.2 == i);
        let mut text = cap;
        let mut k = i;
        while k < n
            invariant
                i <= k <= n == sym@.len(),
                text@ == cap@ + sym@.subrange(i as int, k as int),
            decreases n - k,
        {
            text.push(sym[k]);
            proof {
                assert(sym@.subrange(i as int, k + 1) == sym@.subrange(i as int, k as int).push(sym@[k as int]));
            }
            k = k + 1;
        }
        assert(text@ == key_text(sym@));
        match Key::parse(text.as_slice()) {
            None => None,
            Some(key) => {
                let base = if m.held {
                    Element::Held(key)
                } else if m.released {
                    Element::Released(
                        key,
                        match m.ticks {
                            Some(t) => t,
                            None => 0,
                        },
                    )
                } else {
                    Element::Pressed(key)
                };
                let e = if m.no_other_keys {
                    Element::NoOtherKeys(Box::new(base))
                } else {
                    base
                };
                proof {
                    assert(key_parses(key_text(sym@), key));
                    assert(e == build_element(scanned.0, key));
                }
                Some(e)
            },
        }
    }
}

/// The pieces of `t` between commas.
pub open spec fn split_commas(t: Seq<char>) -> Seq<Seq<char>>
    decreases t.len(),
{
    if t.len() == 0 {
        seq![Seq::empty()]
    } else {
        let p = split_commas(t.drop_last());
        if t.last() == ',' {
            p.push(Seq::empty())
        } else {
            p.update(p.len() - 1, p.last().push(t.last()))
        }
    }
}

proof fn lemma_split_nonempty(t: Seq<char>)
    ensures
        split_commas(t).len() >= 1,
    decreases t.len(),
{
    if t.len() > 0 {
        lemma_split_nonempty(t.drop_last());
    }
}

/// Pieces before the last one of a prefix stay as they are in longer
/// prefixes.
proof fn lemma_split_stable(t: Seq<char>, a: int, b: int)
    requires
        0 <= a <= b <= t.len(),
    ensures
        split_commas(t.subrange(0, a)).len() <= split_commas(t.subrange(0, b)).len(),
        forall|j: int|
            0 <= j < split_commas(t.subrange(0, a)).len() - 1 ==> #[trigger] split_commas(t.subrange(0, b))[j]
                == split_commas(t.subrange(0, a))[j],
    decreases b - a,
{
    if a < b {
        lemma_split_stable(t, a, b - 1);
        let pre = t.subrange(0, b - 1);
        assert(t.subrange(0, b).drop_last() == pre);
        lemma_split_nonempty(pre);
    }
}

fn chars_in(s: &[char], from: usize, to: usize) -> (r: Vec<char>)
    requires
        from <= to <= s@.len(),
    ensures
        r@ == s@.subrange(from as int, to as int),
{
    let mut out: Vec<char> = Vec::new();
    let mut k = from;
    while k < to
        invariant
            from <= k <= to <= s@.len(),
            out@ == s@.subrange(from as int, k as int),
        decreases to - k,
    {
        out.push(s[k]);
        proof {
            assert(s@.subrange(from as int, k + 1) == s@.subrange(from as int, k as int).push(s@[k as int]));
        }
        k = k + 1;
    }
    out
}

impl Sequence {
    /// Reads a command: symbols separated by commas, each one modifiers and
    /// a key. `None` when some symbol names no key.
    pub fn parse(s: &str) -> (r: Option<Sequence>)
        ensures
            ({
                let ps = split_commas(trim(s@));
                &&& r matches Some(q) ==> q.elements@.len() == ps.len() && forall|i: int|
                    0 <= i < ps.len() ==> element_parses(#[trigger] ps[i], q.elements@[i])
                &&& r is None ==> exists|i: int| 0 <= i < ps.len() && key_fails(key_text(#[trigger] ps[i]))
            }),
    {
        let chars = crate::parser::chars_of(s);
        let tv = trim_chars(chars.as_slice());
        let t = tv.as_slice();
        let n = t.len();
        let mut elems: Vec<Element> = Vec::new();
        let ghost mut done: Seq<Seq<char>> = Seq::empty();
        let mut start: usize = 0;
        let mut k: usize = 0;
        proof {
            assert(t@.subrange(0, 0) =~= Seq::<char>::empty());
            assert(split_commas(t@.subrange(0, 0)) =~= done.push(t@.subrange(0, 0)));
        }
        while k < n
            invariant
                t@ == trim(s@),
                n == t@.len(),
                0 <= start <= k <= n,
                split_commas(t@.subrange(0, k as int)) == done.push(t@.subrange(start as int, k as int)),
                elems@.len() == done.len(),
                forall|i: int| 0 <= i < done.len() ==> element_parses(#[trigger] done[i], elems@[i]),
            decreases n - k,
        {
            proof {
                let pre = t@.subrange(0, k + 1);
                assert(pre.drop_last() == t@.subrange(0, k as int));
                assert(pre.last() == t@[k as int]);
                lemma_split_nonempty(t@.subrange(0, k as int));
            }
            if t[k] == ',' {
                let piece = chars_in(t, start, k);
                match Element::parse(piece.as_slice()) {
                    None => {
                        proof {
                            let i = done.len() as int;
                            let pre = t@.subrange(0, k + 1);
                            assert(split_commas(pre) == done.push(piece@).push(Seq::empty()));
                            lemma_split_stable(t@, k + 1, n as int);
                            assert(t@.subrange(0, n as int) == t@);
                            assert(split_commas(t@)[i] == piece@);
                            assert(key_fails(key_text(split_commas(t@)[i])));
                        }
                        return None;
                    },
                    Some(e) => {
                        elems.push(e);
                        proof {
                            assert(t@.subrange(k + 1, k + 1) =~= Seq::<char>::empty());
                            done = done.push(piece@);
                        }
                        start = k + 1;
                    },
                }
            } else {
                proof {
                    assert(t@.subrange(start as int, k + 1) == t@.subrange(start as int, k as int).push(t@[k as int]));
                }
            }
            k = k + 1;
        }
        proof {
            assert(t@.subrange(0, n as int) == t@);
        }
        let piece = chars_in(t, start, n);
        match Element::parse(piece.as_slice()) {
            None => {
                proof {
                    let i = done.len() as int;
                    assert(split_commas(t@)[i] == piece@);
                }
                return None;
            },
            Some(e) => {
                elems.push(e);
                proof {
                    done = done.push(piece@);
                }
            },
        }
        Some(Sequence { elements: elems })
    }
}

} // verus!
