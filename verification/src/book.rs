//! The opening book: for a few move logs from the start of a game, the
//! reply to play.

use vstd::prelude::*;
use crate::action::Action;
use crate::board::Board;
use crate::board_io::{eq_lit, game_type_spec, replay_ok, fresh_model, game_log, parse_action_spec, action_parse_fails_hard};

verus! {

/// The book reply to the move log `log`, if the book has one.
pub open spec fn book_reply_spec(log: Seq<char>) -> Option<Seq<char>> {
    if false {
        None
    } else if log == ""@ {
        Some("wL"@)
    } else if log == "wL"@ {
        Some("bL /wL"@)
    } else if log == "wL;bL /wL"@ {
        Some("wM wL/"@)
    } else if log == "wL;bL /wL;wM wL/"@ {
        Some("bM /bL"@)
    } else if log == "wP"@ {
        Some("bL /wP"@)
    } else if log == "wP;bL /wP"@ {
        Some("wQ wP/"@)
    } else if log == "wL;bL wL-"@ {
        Some("wM -wL"@)
    } else if log == "wL;bL wL-;wA1 -wL"@ {
        Some("bM bL-"@)
    } else if log == "wP;bM /wP"@ {
        Some("wQ wP/"@)
    } else if log == "wL;bG1 /wL"@ {
        Some("wA1 wL/"@)
    } else if log == "wL;bL /wL;wQ wL-"@ {
        Some("bQ -bL"@)
    } else if log == "wL;bL /wL;wA1 wL/"@ {
        Some("bM /bL"@)
    } else if log == "wL;bL /wL;wA1 wL/;bQ bL\\"@ {
        Some("wQ \\wL"@)
    } else if log == "wP;bL wP-"@ {
        Some("wQ -wP"@)
    } else if log == "wG1"@ {
        Some("bL /wG1"@)
    } else if log == "wL;bP /wL"@ {
        Some("wA1 wL/"@)
    } else if log == "wL;bL /wL;wM wL/;bQ bL\\"@ {
        Some("wQ \\wL"@)
    } else if log == "wL;bL wL-;wM -wL"@ {
        Some("bM bL-"@)
    } else if log == "wL;bL /wL;wA1 wL/;bM /bL"@ {
        Some("wQ \\wL"@)
    } else if log == "wL;bL /wL;wA1 wL/;bM /bL;wQ \\wL"@ {
        Some("bQ bL\\"@)
    } else if log == "wL;bL wL\\"@ {
        Some("wM \\wL"@)
    } else if log == "wM"@ {
        Some("bL /wM"@)
    } else if log == "wL;bL wL\\;wM \\wL"@ {
        Some("bM bL\\"@)
    } else if log == "wL;bL /wL;wQ \\wL"@ {
        Some("bQ bL\\"@)
    } else if log == "wP;bL /wP;wQ wP/"@ {
        Some("bM /bL"@)
    } else if log == "wG1;bL /wG1"@ {
        Some("wA1 wG1/"@)
    } else if log == "wL;bL /wL;wQ \\wL;bQ bL\\"@ {
        Some("wA1 wL-"@)
    } else {
        None
    }
}

/// The book reply to the move log `log` (see `book_reply_spec`).
pub fn book_reply(log: &[char]) -> (r: Option<&'static str>)
    ensures
        r matches Some(m) ==> book_reply_spec(log@) == Some(m@),
        r is None ==> book_reply_spec(log@) is None,
{
    if eq_lit(log, "") {
        return Some("wL");
    }
    if eq_lit(log, "wL") {
        return Some("bL /wL");
    }
    if eq_lit(log, "wL;bL /wL") {
        return Some("wM wL/");
    }
    if eq_lit(log, "wL;bL /wL;wM wL/") {
        return Some("bM /bL");
    }
    if eq_lit(log, "wP") {
        return Some("bL /wP");
    }
    if eq_lit(log, "wP;bL /wP") {
        return Some("wQ wP/");
    }
    if eq_lit(log, "wL;bL wL-") {
        return Some("wM -wL");
    }
    if eq_lit(log, "wL;bL wL-;wA1 -wL") {
        return Some("bM bL-");
    }
    if eq_lit(log, "wP;bM /wP") {
        return Some("wQ wP/");
    }
    if eq_lit(log, "wL;bG1 /wL") {
        return Some("wA1 wL/");
    }
    if eq_lit(log, "wL;bL /wL;wQ wL-") {
        return Some("bQ -bL");
    }
    if eq_lit(log, "wL;bL /wL;wA1 wL/") {
        return Some("bM /bL");
    }
    if eq_lit(log, "wL;bL /wL;wA1 wL/;bQ bL\\") {
        return Some("wQ \\wL");
    }
    if eq_lit(log, "wP;bL wP-") {
        return Some("wQ -wP");
    }
    if eq_lit(log, "wG1") {
        return Some("bL /wG1");
    }
    if eq_lit(log, "wL;bP /wL") {
        return Some("wA1 wL/");
    }
    if eq_lit(log, "wL;bL /wL;wM wL/;bQ bL\\") {
        return Some("wQ \\wL");
    }
    if eq_lit(log, "wL;bL wL-;wM -wL") {
        return Some("bM bL-");
    }
    if eq_lit(log, "wL;bL /wL;wA1 wL/;bM /bL") {
        return Some("wQ \\wL");
    }
    if eq_lit(log, "wL;bL /wL;wA1 wL/;bM /bL;wQ \\wL") {
        return Some("bQ bL\\");
    }
    if eq_lit(log, "wL;bL wL\\") {
        return Some("wM \\wL");
    }
    if eq_lit(log, "wM") {
        return Some("bL /wM");
    }
    if eq_lit(log, "wL;bL wL\\;wM \\wL") {
        return Some("bM bL\\");
    }
    if eq_lit(log, "wL;bL /wL;wQ \\wL") {
        return Some("bQ bL\\");
    }
    if eq_lit(log, "wP;bL /wP;wQ wP/") {
        return Some("bM /bL");
    }
    if eq_lit(log, "wG1;bL /wG1") {
        return Some("wA1 wG1/");
    }
    if eq_lit(log, "wL;bL /wL;wQ \\wL;bQ bL\\") {
        return Some("wA1 wL-");
    }
    None
}

/// The book move for the position `board`: the reply to its move log, read
/// in the position; none when the book has no reply.
pub fn get_book_move(board: &Board) -> (r: Option<Action>)
    requires
        board.wf(),
        game_type_spec(board.gametype@) matches Some((a, b, c)) && replay_ok(
            fresh_model(a, b, c),
            board@.history,
        ),
    ensures
        game_type_spec(board.gametype@) matches Some((a, b, c)) && r == match book_reply_spec(
            game_log(fresh_model(a, b, c), board@.history),
        ) {
            None => None,
            Some(m) => if action_parse_fails_hard(*board, m) {
                None
            } else {
                parse_action_spec(*board, m)
            },
        },
{
    let log = board.game_log_string();
    let move_str = match book_reply(log.as_slice()) {
        Some(m) => m,
        None => return None,
    };
    if board.parse_fails_hard(move_str) {
        return None;
    }
    match board.parse_action(move_str) {
        Ok(a) => Some(a),
        Err(_) => None,
    }
}

} // verus!
