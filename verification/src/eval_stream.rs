//! Evaluation records read out of a stream of JSON text, one line at a
//! time: a line may give a record's position, its evaluation, its result
//! and its static evaluation, and a line with a closing brace ends the
//! record. A record without a position is dropped. The numbers are kept as
//! the text that holds them.

use vstd::prelude::*;
use crate::board_io::{chars_of, push_char_pub};

verus! {

/// The text of the first capture group of the first match of the regular
/// expression `pattern` in `s`; none when it does not compile, does not
/// match, or the group takes no part in the match.
pub uninterp spec fn first_capture(pattern: Seq<char>, s: Seq<char>) -> Option<Seq<char>>;

/// `regex::Regex::new` and `Regex::captures`: the text of group 1 of the
/// first match of `pattern` in `line` (see `first_capture`).
#[verifier::external_body]
fn capture(pattern: &str, line: &str) -> (r: Option<String>)
    ensures
        match r {
            Some(c) => first_capture(pattern@, line@) == Some(c@),
            None => first_capture(pattern@, line@) is None,
        },
{
    match regex::Regex::new(pattern) {
        Ok(re) => match re.captures(line) {
            Some(caps) => caps.get(1).map(|m| m.as_str().to_string()),
            None => None,
        },
        Err(_) => None,
    }
}

/// The pattern of a position.
pub open spec fn position_pattern() -> Seq<char> {
    r#""position"\s*:\s*"([^"]+)""#@
}

/// The pattern of an evaluation.
pub open spec fn evaluation_pattern() -> Seq<char> {
    r#""evaluation"\s*:\s*(-?[0-9]+(?:\.[0-9]+)?)"#@
}

/// The pattern of a result.
pub open spec fn winner_pattern() -> Seq<char> {
    r#""winner"\s*:\s*([0-9]+(?:\.[0-9]+)?)"#@
}

/// The pattern of a static evaluation.
pub open spec fn static_pattern() -> Seq<char> {
    r#""static_eval"\s*:\s*(-?[0-9]+(?:\.[0-9]+)?)"#@
}

/// `s` with each pair of backslashes, read from the left, made one.
pub open spec fn unescape(s: Seq<char>) -> Seq<char>
    decreases s.len(),
{
    if s.len() == 0 {
        s
    } else if s.len() >= 2 && s[0] == '\\' && s[1] == '\\' {
        seq!['\\'] + unescape(s.skip(2))
    } else {
        seq![s[0]] + unescape(s.skip(1))
    }
}

/// A record: the position, and the text of the evaluation, the result and
/// the static evaluation where the record gives them.
pub struct RawEvalEntry {
    pub position: String,
    pub evaluation: Option<String>,
    pub winner: Option<String>,
    pub static_eval: Option<String>,
}

/// The view of a piece of text that may be missing.
pub open spec fn opt_view(o: Option<String>) -> Option<Seq<char>> {
    match o {
        Some(s) => Some(s@),
        None => None,
    }
}

/// A record as text: position, evaluation, result, static evaluation.
pub type EntryText = (Seq<char>, Option<Seq<char>>, Option<Seq<char>>, Option<Seq<char>>);

/// What has been read of the record under way.
pub type Fields = (Option<Seq<char>>, Option<Seq<char>>, Option<Seq<char>>, Option<Seq<char>>);

impl View for RawEvalEntry {
    type V = EntryText;

    open spec fn view(&self) -> EntryText {
        (self.position@, opt_view(self.evaluation), opt_view(self.winner), opt_view(self.static_eval))
    }
}

/// Reading `line` after the fields `f`: the fields after it and, when the
/// line closes a record that has a position, the record (see
/// `read_fields`).
pub open spec fn read_line(f: Fields, line: Seq<char>) -> (Fields, Option<EntryText>) {
    read_fields(
        f,
        first_capture(position_pattern(), line),
        first_capture(evaluation_pattern(), line),
        first_capture(winner_pattern(), line),
        first_capture(static_pattern(), line),
        line.contains('}'),
    )
}

/// Reading a line after the fields `f`, the line's captures being `pos`
/// (the position, unescaped here), `ev`, `win` and `st`, and `closes`
/// telling whether it holds a closing brace: a capture replaces the field
/// read before; a closing line clears the fields and ends the record,
/// which is kept when it has a position.
pub open spec fn read_fields(
    f: Fields,
    pos: Option<Seq<char>>,
    ev: Option<Seq<char>>,
    win: Option<Seq<char>>,
    st: Option<Seq<char>>,
    closes: bool,
) -> (Fields, Option<EntryText>) {
    let p = match pos {
        Some(c) => Some(unescape(c)),
        None => f.0,
    };
    let e = match ev {
        Some(c) => Some(c),
        None => f.1,
    };
    let w = match win {
        Some(c) => Some(c),
        None => f.2,
    };
    let s = match st {
        Some(c) => Some(c),
        None => f.3,
    };
    if closes {
        (
            (None, None, None, None),
            match p {
                Some(x) => Some((x, e, w, s)),
                None => None,
            },
        )
    } else {
        ((p, e, w, s), None)
    }
}

/// The fields and the records after the first `n` lines.
pub open spec fn read_lines(lines: Seq<Seq<char>>, n: int) -> (Fields, Seq<EntryText>)
    decreases n,
{
    if n <= 0 {
        ((None, None, None, None), Seq::empty())
    } else {
        let (f, es) = read_lines(lines, n - 1);
        let (f2, e) = read_line(f, lines[n - 1]);
        (
            f2,
            match e {
                Some(x) => es.push(x),
                None => es,
            },
        )
    }
}

/// The records of `lines`, the first `limit` of them (at least one) when
/// there is a limit.
pub open spec fn eval_entries_spec(lines: Seq<Seq<char>>, limit: Option<usize>) -> Seq<EntryText> {
    let all = read_lines(lines, lines.len() as int).1;
    match limit {
        None => all,
        Some(l) => {
            let k = limit_count(l);
            if all.len() <= k {
                all
            } else {
                all.take(k)
            }
        },
    }
}

/// How many records a limit of `l` lets through: `l`, and one for 0.
pub open spec fn limit_count(l: usize) -> int {
    if l == 0 {
        1
    } else {
        l as int
    }
}

/// The records after fewer lines are the first of those after more.
proof fn lemma_read_lines_prefix(lines: Seq<Seq<char>>, i: int, n: int)
    requires
        0 <= i <= n,
    ensures
        read_lines(lines, i).1.len() <= read_lines(lines, n).1.len(),
        read_lines(lines, i).1 == read_lines(lines, n).1.take(read_lines(lines, i).1.len() as int),
    decreases n - i,
{
    if i < n {
        lemma_read_lines_prefix(lines, i, n - 1);
        let a = read_lines(lines, n - 1).1;
        let b = read_lines(lines, n).1;
        assert(b == a || b == a.push(b.last()));
        assert(a.take(read_lines(lines, i).1.len() as int) =~= b.take(read_lines(lines, i).1.len() as int));
    } else {
        assert(read_lines(lines, n).1 =~= read_lines(lines, n).1.take(read_lines(lines, n).1.len() as int));
    }
}

/// `s` with each pair of backslashes made one (see `unescape`).
pub fn unescape_text(s: &str) -> (r: String)
    ensures
        r@ == unescape(s@),
{
    let cs = chars_of(s);
    let mut r = String::new();
    let mut i: usize = 0;
    assert(cs@.skip(0) =~= cs@);
    assert(r@ + unescape(cs@) =~= unescape(cs@));
    while i < cs.len()
        invariant
            cs@ == s@,
            0 <= i <= cs@.len(),
            r@ + unescape(cs@.skip(i as int)) == unescape(cs@),
        decreases cs@.len() - i,
    {
        let ghost rest = cs@.skip(i as int);
        if i + 1 < cs.len() && cs[i] == '\\' && cs[i + 1] == '\\' {
            assert(rest.skip(2) =~= cs@.skip(i + 2));
            push_char_pub(&mut r, '\\');
            i += 2;
        } else {
            assert(rest.skip(1) =~= cs@.skip(i + 1));
            push_char_pub(&mut r, cs[i]);
            i += 1;
        }
    }
    assert(cs@.skip(i as int) =~= Seq::<char>::empty());
    r
}

/// Whether `line` holds a closing brace.
fn closes(line: &str) -> (r: bool)
    ensures
        r == line@.contains('}'),
{
    let cs = chars_of(line);
    let mut i: usize = 0;
    while i < cs.len()
        invariant
            cs@ == line@,
            0 <= i <= cs@.len(),
            forall|j: int| 0 <= j < i ==> cs@[j] != '}',
        decreases cs@.len() - i,
    {
        if cs[i] == '}' {
            return true;
        }
        i += 1;
    }
    false
}

/// The view of fields held as text.
pub open spec fn fields_view(f: (Option<String>, Option<String>, Option<String>, Option<String>)) -> Fields {
    (opt_view(f.0), opt_view(f.1), opt_view(f.2), opt_view(f.3))
}

/// The view of a record, if any.
pub open spec fn entry_view(e: Option<RawEvalEntry>) -> Option<EntryText> {
    match e {
        Some(x) => Some(x@),
        None => None,
    }
}

/// One line read after the fields `cur`, given the line's captures and
/// whether it holds a closing brace (see `read_fields`).
pub fn read_captures(
    cur: (Option<String>, Option<String>, Option<String>, Option<String>),
    pos: Option<String>,
    ev: Option<String>,
    win: Option<String>,
    st: Option<String>,
    closes: bool,
) -> (r: ((Option<String>, Option<String>, Option<String>, Option<String>), Option<RawEvalEntry>))
    ensures
        (fields_view(r.0), entry_view(r.1)) == read_fields(fields_view(cur), opt_view(pos), opt_view(ev), opt_view(win), opt_view(st), closes),
{
    let (cp, ce, cw, cs) = cur;
    let p = match pos {
        Some(c) => Some(unescape_text(c.as_str())),
        None => cp,
    };
    let e = match ev {
        Some(c) => Some(c),
        None => ce,
    };
    let w = match win {
        Some(c) => Some(c),
        None => cw,
    };
    let s = match st {
        Some(c) => Some(c),
        None => cs,
    };
    if closes {
        let rec = match p {
            Some(x) => Some(RawEvalEntry { position: x, evaluation: e, winner: w, static_eval: s }),
            None => None,
        };
        ((None, None, None, None), rec)
    } else {
        ((p, e, w, s), None)
    }
}

/// The evaluation records of the stream `lines` (see `eval_entries_spec`):
/// at most `limit` of them, though at least one, when there is a limit.
pub fn eval_entries_from_lines(lines: &Vec<String>, limit: Option<usize>) -> (r: Vec<RawEvalEntry>)
    ensures
        r@.len() == eval_entries_spec(lines@.map_values(|l: String| l@), limit).len(),
        forall|i: int| 0 <= i < r@.len() ==> #[trigger] r@[i]@ == eval_entries_spec(lines@.map_values(|l: String| l@), limit)[i],
{
    let ghost ls = lines@.map_values(|l: String| l@);
    let mut entries: Vec<RawEvalEntry> = Vec::new();
    let mut cur_pos: Option<String> = None;
    let mut cur_eval: Option<String> = None;
    let mut cur_win: Option<String> = None;
    let mut cur_static: Option<String> = None;
    let mut i: usize = 0;
    while i < lines.len()
        invariant_except_break
            limit matches Some(l) ==> entries@.len() < limit_count(l),
        invariant
            ls == lines@.map_values(|l: String| l@),
            0 <= i <= lines@.len(),
            read_lines(ls, i as int).0 == (opt_view(cur_pos), opt_view(cur_eval), opt_view(cur_win), opt_view(cur_static)),
            entries@.len() == read_lines(ls, i as int).1.len(),
            forall|j: int| 0 <= j < entries@.len() ==> #[trigger] entries@[j]@ == read_lines(ls, i as int).1[j],
            limit matches Some(l) ==> entries@.len() <= limit_count(l),
        ensures
            i == lines@.len() || (limit matches Some(l) && entries@.len() == limit_count(l)),
        decreases lines@.len() - i,
    {
        let line = lines[i].as_str();
        assert(ls[i as int] == line@);
        let pos = capture(r#""position"\s*:\s*"([^"]+)""#, line);
        let ev = capture(r#""evaluation"\s*:\s*(-?[0-9]+(?:\.[0-9]+)?)"#, line);
        let win = capture(r#""winner"\s*:\s*([0-9]+(?:\.[0-9]+)?)"#, line);
        let st = capture(r#""static_eval"\s*:\s*(-?[0-9]+(?:\.[0-9]+)?)"#, line);
        let (fields, rec) = read_captures((cur_pos, cur_eval, cur_win, cur_static), pos, ev, win, st, closes(line));
        let (p, e, w, t) = fields;
        cur_pos = p;
        cur_eval = e;
        cur_win = w;
        cur_static = t;
        let mut done = false;
        if let Some(x) = rec {
            entries.push(x);
            if let Some(lim) = limit {
                if entries.len() >= lim {
                    done = true;
                }
            }
        }
        i += 1;
        if done {
            break;
        }
    }
    proof {
        lemma_read_lines_prefix(ls, i as int, ls.len() as int);
    }
    entries
}

} // verus!
