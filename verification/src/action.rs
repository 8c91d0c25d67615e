//! The actions a turn can emit, and their textual command form. A turn's
//! actions are rendered as semicolon-terminated commands; a turn with no
//! actions still renders as `WAIT;` so the game driver always receives a
//! non-empty line.

use vstd::prelude::*;

verus! {

/// One command for the game driver.
#[derive(Debug)]
pub enum Action {
    Move { amount: u32, from: (u32, u32), to: (u32, u32) },
    Build(u32, u32),
    Spawn(u32, u32, u32),
    Message(String),
    Wait,
}

/// The decimal digit character for a value below ten.
pub open spec fn digit_char(d: int) -> char {
    if d == 0 {
        '0'
    } else if d == 1 {
        '1'
    } else if d == 2 {
        '2'
    } else if d == 3 {
        '3'
    } else if d == 4 {
        '4'
    } else if d == 5 {
        '5'
    } else if d == 6 {
        '6'
    } else if d == 7 {
        '7'
    } else if d == 8 {
        '8'
    } else {
        '9'
    }
}

/// The decimal rendering of a non-negative integer, most significant digit
/// first, with no leading zeros except for zero itself.
pub open spec fn dec_str(n: int) -> Seq<char>
    decreases n,
{
    if n < 10 {
        seq![digit_char(n)]
    } else {
        dec_str(n / 10) + seq![digit_char(n % 10)]
    }
}

/// A one-character string for a digit.
fn digit_str(d: u32) -> (r: &'static str)
    requires
        d < 10,
    ensures
        r@ =~= seq![digit_char(d as int)],
{
    let r: &'static str = match d {
        0 => "0",
        1 => "1",
        2 => "2",
        3 => "3",
        4 => "4",
        5 => "5",
        6 => "6",
        7 => "7",
        8 => "8",
        _ => "9",
    };
    proof {
        reveal_strlit("0");
        reveal_strlit("1");
        reveal_strlit("2");
        reveal_strlit("3");
        reveal_strlit("4");
        reveal_strlit("5");
        reveal_strlit("6");
        reveal_strlit("7");
        reveal_strlit("8");
        reveal_strlit("9");
    }
    r
}

/// A number rendered in decimal.
pub fn u32_to_string(n: u32) -> (r: String)
    ensures
        r@ == dec_str(n as int),
    decreases n,
{
    if n < 10 {
        let r = String::from_str(digit_str(n));
        proof {
            assert(r@ =~= dec_str(n as int));
        }
        r
    } else {
        let r = u32_to_string(n / 10).concat(digit_str(n % 10));
        proof {
            assert(r@ =~= dec_str(n as int));
        }
        r
    }
}

/// The command text of one action, without the trailing semicolon.
pub open spec fn action_str(a: Action) -> Seq<char> {
    match a {
        Action::Move { amount, from, to } => "MOVE "@ + dec_str(amount as int) + " "@ + dec_str(
            from.0 as int,
        ) + " "@ + dec_str(from.1 as int) + " "@ + dec_str(to.0 as int) + " "@ + dec_str(
            to.1 as int,
        ),
        Action::Build(x, y) => "BUILD "@ + dec_str(x as int) + " "@ + dec_str(y as int),
        Action::Spawn(amount, x, y) => "SPAWN "@ + dec_str(amount as int) + " "@ + dec_str(
            x as int,
        ) + " "@ + dec_str(y as int),
        Action::Message(msg) => "MESSAGE "@ + msg@,
        Action::Wait => "WAIT"@,
    }
}

/// The rendering of a whole turn: each action's command text followed by a
/// semicolon; a turn with no actions renders as the single command `WAIT;`.
pub open spec fn turn_str(actions: Seq<Action>) -> Seq<char>
    decreases actions.len(),
{
    if actions.len() == 0 {
        "WAIT;"@
    } else if actions.len() == 1 {
        action_str(actions[0]) + ";"@
    } else {
        turn_str(actions.drop_last()) + action_str(actions.last()) + ";"@
    }
}

impl Action {
    /// This action's command text.
    pub fn to_command_string(&self) -> (r: String)
        ensures
            r@ == action_str(*self),
    {
        match self {
            Action::Move { amount, from, to } => {
                let mut s = String::from_str("MOVE ");
                s.append(u32_to_string(*amount).as_str());
                s.append(" ");
                s.append(u32_to_string(from.0).as_str());
                s.append(" ");
                s.append(u32_to_string(from.1).as_str());
                s.append(" ");
                s.append(u32_to_string(to.0).as_str());
                s.append(" ");
                s.append(u32_to_string(to.1).as_str());
                proof {
                    assert(s@ =~= action_str(*self));
                }
                s
            },
            Action::Build(x, y) => {
                let mut s = String::from_str("BUILD ");
                s.append(u32_to_string(*x).as_str());
                s.append(" ");
                s.append(u32_to_string(*y).as_str());
                proof {
                    assert(s@ =~= action_str(*self));
                }
                s
            },
            Action::Spawn(amount, x, y) => {
                let mut s = String::from_str("SPAWN ");
                s.append(u32_to_string(*amount).as_str());
                s.append(" ");
                s.append(u32_to_string(*x).as_str());
                s.append(" ");
                s.append(u32_to_string(*y).as_str());
                proof {
                    assert(s@ =~= action_str(*self));
                }
                s
            },
            Action::Message(msg) => {
                let mut s = String::from_str("MESSAGE ");
                s.append(msg.as_str());
                proof {
                    assert(s@ =~= action_str(*self));
                }
                s
            },
            Action::Wait => String::from_str("WAIT"),
        }
    }

    /// Render a whole turn as one line of semicolon-terminated commands.
    /// Zero actions still produce the literal `WAIT;`, so the driver always
    /// gets a command.
    pub fn render_turn(actions: &Vec<Action>) -> (r: String)
        ensures
            r@ == turn_str(actions@),
            actions@.len() == 0 ==> r@ == "WAIT;"@,
    {
        if actions.len() == 0 {
            return String::from_str("WAIT;");
        }
        let mut out = String::new();
        let mut i: usize = 0;
        while i < actions.len()
            invariant
                1 <= actions@.len(),
                i <= actions@.len(),
                i == 0 ==> out@ =~= Seq::<char>::empty(),
                i > 0 ==> out@ == turn_str(actions@.take(i as int)),
            decreases actions@.len() - i,
        {
            let piece = actions[i].to_command_string();
            out.append(piece.as_str());
            out.append(";");
            proof {
                if i == 0 {
                    assert(actions@.take(1) =~= seq![actions@[0]]);
                    assert(out@ =~= turn_str(actions@.take(1)));
                } else {
                    assert(actions@.take(i + 1).drop_last() =~= actions@.take(i as int));
                    assert(actions@.take(i + 1).last() == actions@[i as int]);
                    assert(out@ =~= turn_str(actions@.take(i + 1)));
                }
            }
            i += 1;
        }
        proof {
            assert(actions@.take(actions@.len() as int) =~= actions@);
        }
        out
    }

    /// One of a fixed list of taunt messages, picked from the clock's
    /// subsecond nanoseconds. Whatever the clock says, the result is a
    /// message holding one of the four taunts.
    pub fn generate_taunt() -> (r: Action)
        ensures
            r is Message,
            is_taunt(r->Message_0@),
    {
        let n = clock_subsec_nanos();
        let text: &'static str = match n % 4 {
            0 => "Be prepared to get scrapped!",
            1 => "Let's see if Santa made your Robots run on coal!",
            2 => "Ah! A good game to you... Unless your name is Jaap!",
            _ => "Better to give in. You wouldn't want to end up on my naughty list, would you?",
        };
        Action::Message(String::from_str(text))
    }
}

/// The fixed taunt texts.
pub open spec fn is_taunt(s: Seq<char>) -> bool {
    ||| s == "Be prepared to get scrapped!"@
    ||| s == "Let's see if Santa made your Robots run on coal!"@
    ||| s == "Ah! A good game to you... Unless your name is Jaap!"@
    ||| s == "Better to give in. You wouldn't want to end up on my naughty list, would you?"@
}

/// Relies on std::time: `SystemTime::now`, `duration_since(UNIX_EPOCH)` and
/// `Duration::subsec_nanos`, which std documents as the subsecond part of the
/// elapsed time, below one billion; a clock before the epoch yields zero.
#[verifier::external_body]
fn clock_subsec_nanos() -> (r: u32)
    ensures
        r < 1_000_000_000,
{
    match std::time::SystemTime::now().duration_since(std::time::UNIX_EPOCH) {
        Ok(d) => d.subsec_nanos(),
        Err(_) => 0,
    }
}

} // verus!
