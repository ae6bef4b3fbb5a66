//! The kinds that a character state declares: its stance, its kind of move,
//! and the physics applied to it.
use vstd::prelude::*;

verus! {

/// Stance: standing, crouching, aerial, lying down, or left unchanged.
#[derive(Debug, Copy, Clone, PartialEq, Eq, Structural)]
pub enum StateType {
    S,
    C,
    A,
    L,
    U,
}

/// Kind of move: attacking, idle, being hit, or left unchanged.
#[derive(Debug, Copy, Clone, PartialEq, Eq, Structural)]
pub enum MoveType {
    A,
    I,
    H,
    U,
}

/// Physics: standing, crouching, aerial, none, or left unchanged.
#[derive(Debug, Copy, Clone, PartialEq, Eq, Structural)]
pub enum Physics {
    S,
    C,
    A,
    N,
    U,
}

/// The one character of a text, if it has exactly one.
fn single_char(s: &str) -> (r: Option<char>)
    ensures
        s@.len() == 1 ==> r == Some(s@[0]),
        s@.len() != 1 ==> r is None,
{
    if s.unicode_len() == 1 {
        Some(s.get_char(0))
    } else {
        None
    }
}

pub open spec fn state_type_of(s: Seq<char>) -> Option<StateType> {
    if s == seq!['s'] {
        Some(StateType::S)
    } else if s == seq!['c'] {
        Some(StateType::C)
    } else if s == seq!['a'] {
        Some(StateType::A)
    } else if s == seq!['l'] {
        Some(StateType::L)
    } else if s == seq!['u'] {
        Some(StateType::U)
    } else {
        None
    }
}

pub open spec fn move_type_of(s: Seq<char>) -> Option<MoveType> {
    if s == seq!['a'] {
        Some(MoveType::A)
    } else if s == seq!['i'] {
        Some(MoveType::I)
    } else if s == seq!['h'] {
        Some(MoveType::H)
    } else if s == seq!['u'] {
        Some(MoveType::U)
    } else {
        None
    }
}

pub open spec fn physics_of(s: Seq<char>) -> Option<Physics> {
    if s == seq!['s'] {
        Some(Physics::S)
    } else if s == seq!['c'] {
        Some(Physics::C)
    } else if s == seq!['a'] {
        Some(Physics::A)
    } else if s == seq!['n'] {
        Some(Physics::N)
    } else if s == seq!['u'] {
        Some(Physics::U)
    } else {
        None
    }
}

proof fn lemma_one_char(s: Seq<char>, c: char)
    requires
        s.len() == 1,
    ensures
        (s == seq![c]) == (s[0] == c),
{
    if s[0] == c {
        assert(s =~= seq![c]);
    }
}

impl StateType {
    /// Reads the lower-case letter of a stance.
    pub fn parse(s: &str) -> (r: Option<StateType>)
        ensures
            r == state_type_of(s@),
    {
        let c = single_char(s);
        proof {
            if s@.len() == 1 {
                lemma_one_char(s@, 's');
                lemma_one_char(s@, 'c');
                lemma_one_char(s@, 'a');
                lemma_one_char(s@, 'l');
                lemma_one_char(s@, 'u');
            }
        }
        match c {
            Some('s') => Some(StateType::S),
            Some('c') => Some(StateType::C),
            Some('a') => Some(StateType::A),
            Some('l') => Some(StateType::L),
            Some('u') => Some(StateType::U),
            _ => None,
        }
    }

    /// The lower-case letter of the stance.
    pub fn code(&self) -> (r: char)
        ensures
            r == match *self {
                StateType::S => 's',
                StateType::C => 'c',
                StateType::A => 'a',
                StateType::L => 'l',
                StateType::U => 'u',
            },
    {
        match self {
            StateType::S => 's',
            StateType::C => 'c',
            StateType::A => 'a',
            StateType::L => 'l',
            StateType::U => 'u',
        }
    }
}

impl Default for StateType {
    fn default() -> (r: Self)
        ensures
            r == StateType::S,
    {
        StateType::S
    }
}

impl MoveType {
    /// Reads the lower-case letter of a kind of move.
    pub fn parse(s: &str) -> (r: Option<MoveType>)
        ensures
            r == move_type_of(s@),
    {
        let c = single_char(s);
        proof {
            if s@.len() == 1 {
                lemma_one_char(s@, 'a');
                lemma_one_char(s@, 'i');
                lemma_one_char(s@, 'h');
                lemma_one_char(s@, 'u');
            }
        }
        match c {
            Some('a') => Some(MoveType::A),
            Some('i') => Some(MoveType::I),
            Some('h') => Some(MoveType::H),
            Some('u') => Some(MoveType::U),
            _ => None,
        }
    }
}

impl Default for MoveType {
    fn default() -> (r: Self)
        ensures
            r == MoveType::I,
    {
        MoveType::I
    }
}

impl Physics {
    /// Reads the lower-case letter of a kind of physics.
    pub fn parse(s: &str) -> (r: Option<Physics>)
        ensures
            r == physics_of(s@),
    {
        let c = single_char(s);
        proof {
            if s@.len() == 1 {
                lemma_one_char(s@, 's');
                lemma_one_char(s@, 'c');
                lemma_one_char(s@, 'a');
                lemma_one_char(s@, 'n');
                lemma_one_char(s@, 'u');
            }
        }
        match c {
            Some('s') => Some(Physics::S),
            Some('c') => Some(Physics::C),
            Some('a') => Some(Physics::A),
            Some('n') => Some(Physics::N),
            Some('u') => Some(Physics::U),
            _ => None,
        }
    }
}

impl Default for Physics {
    fn default() -> (r: Self)
        ensures
            r == Physics::N,
    {
        Physics::N
    }
}

} // verus!
