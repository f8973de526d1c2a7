//! The text-protocol surface: the commands the engine understands, the
//! preprocessing every input line goes through, and verified parsers for the
//! arguments (numbers, colors, vertices).  The I/O loop around them lives
//! outside the library; it hands lines in as bytes and takes plain values
//! back.

use vstd::prelude::*;

use crate::board::Color;
use crate::board::IllegalMove;
use crate::board::Move;
use vstd::string::StringSliceAdditionalSpecFns;

verus! {

/// A protocol command, as the interpreter reports it after acting on a
/// line: either a successful command (some carry their answer), or one of
/// the error shapes.
pub enum Command {
    BoardSize,
    ClearBoard,
    Empty,
    Error,
    ErrorMessage(String),
    FinalScore(String),
    GenMove(String),
    GenMoveError(Move, IllegalMove),
    KnownCommand(bool),
    Komi,
    ListCommands(String),
    LoadSgf,
    Name,
    Play,
    PlayError(Move, IllegalMove),
    ProtocolVersion,
    Quit,
    ShowBoard(String),
    TimeLeft,
    TimeSettings,
    Version,
}

/// An error reply with the given text.
pub fn err(s: &'static str) -> (r: Result<String, String>)
    ensures
        r is Err,
        r->Err_0@ == s@,
{
    Err(s.to_owned())
}

/// A success reply with the given text.
pub fn ok(s: &'static str) -> (r: Result<String, String>)
    ensures
        r is Ok,
        r->Ok_0@ == s@,
{
    Ok(s.to_owned())
}

/// The comment-free prefix of a line: everything before the first `#`.
pub open spec fn cut_comment(s: Seq<u8>) -> Seq<u8>
    decreases s.len(),
{
    if s.len() == 0 {
        Seq::empty()
    } else if s[0] == 35 {
        Seq::empty()
    } else {
        seq![s[0]] + cut_comment(s.drop_first())
    }
}

/// Tabs become spaces; other control bytes (and DEL) disappear.
pub open spec fn normalize(s: Seq<u8>) -> Seq<u8>
    decreases s.len(),
{
    if s.len() == 0 {
        Seq::empty()
    } else {
        let head = if s[0] == 9 {
            seq![32u8]
        } else if s[0] < 32 || s[0] == 127 {
            Seq::<u8>::empty()
        } else {
            seq![s[0]]
        };
        head + normalize(s.drop_first())
    }
}

/// Leading spaces dropped.
pub open spec fn trim_start(s: Seq<u8>) -> Seq<u8>
    decreases s.len(),
{
    if s.len() > 0 && s[0] == 32 {
        trim_start(s.drop_first())
    } else {
        s
    }
}

/// Trailing spaces dropped.
pub open spec fn trim_end(s: Seq<u8>) -> Seq<u8>
    decreases s.len(),
{
    if s.len() > 0 && s[s.len() - 1] == 32 {
        trim_end(s.drop_last())
    } else {
        s
    }
}

/// What preprocessing leaves of an input line.
pub open spec fn spec_preprocess(s: Seq<u8>) -> Seq<u8> {
    trim_end(trim_start(normalize(cut_comment(s))))
}

/// Strip a line down to the command text: cut the comment, turn tabs into
/// spaces, drop other control characters, and trim spaces at both ends.
pub fn preprocess(input: &[u8]) -> (r: Vec<u8>)
    ensures
        r@ == spec_preprocess(input@),
{
    let mut cut: Vec<u8> = Vec::new();
    let mut i: usize = 0;
    let mut stopped = false;
    proof {
        assert(input@.skip(0) =~= input@);
        assert(Seq::<u8>::empty() + cut_comment(input@) =~= cut_comment(input@));
    }
    while i < input.len() && !stopped
        invariant
            i <= input@.len(),
            stopped ==> (i < input@.len() && input@[i as int] == 35 && cut@ + Seq::<u8>::empty()
                =~= cut@),
            !stopped ==> forall|j: int| 0 <= j < i ==> input@[j] != 35,
            !stopped ==> cut@ + cut_comment(input@.skip(i as int)) == cut_comment(input@),
            stopped ==> cut@ == cut_comment(input@),
        decreases input@.len() - i + if stopped {
            0int
        } else {
            1int
        },
    {
        let b = input[i];
        proof {
            assert(input@.skip(i as int)[0] == input@[i as int]);
            assert(input@.skip(i as int).drop_first() =~= input@.skip(i + 1));
        }
        if b == 35 {
            proof {
                assert(cut_comment(input@.skip(i as int)) =~= Seq::<u8>::empty());
                assert(cut@ + Seq::<u8>::empty() =~= cut@);
            }
            stopped = true;
        } else {
            proof {
                assert((cut@.push(b)) + cut_comment(input@.skip(i + 1)) =~= cut@ + cut_comment(
                    input@.skip(i as int),
                ));
            }
            cut.push(b);
            i += 1;
        }
    }
    proof {
        if !stopped {
            assert(input@.skip(i as int) =~= Seq::<u8>::empty());
            assert(cut@ + Seq::<u8>::empty() =~= cut@);
        }
    }
    let mut norm: Vec<u8> = Vec::new();
    let mut j: usize = 0;
    proof {
        assert(cut@.skip(0) =~= cut@);
        assert(Seq::<u8>::empty() + normalize(cut@) =~= normalize(cut@));
    }
    while j < cut.len()
        invariant
            j <= cut@.len(),
            cut@ == cut_comment(input@),
            norm@ + normalize(cut@.skip(j as int)) == normalize(cut@),
        decreases cut@.len() - j,
    {
        let b = cut[j];
        proof {
            assert(cut@.skip(j as int)[0] == cut@[j as int]);
            assert(cut@.skip(j as int).drop_first() =~= cut@.skip(j + 1));
        }
        if b == 9 {
            proof {
                assert((norm@.push(32u8)) + normalize(cut@.skip(j + 1)) =~= norm@ + normalize(
                    cut@.skip(j as int),
                ));
            }
            norm.push(32);
        } else if b < 32 || b == 127 {
            proof {
                assert(norm@ + normalize(cut@.skip(j + 1)) =~= norm@ + normalize(
                    cut@.skip(j as int),
                ));
            }
        } else {
            proof {
                assert((norm@.push(b)) + normalize(cut@.skip(j + 1)) =~= norm@ + normalize(
                    cut@.skip(j as int),
                ));
            }
            norm.push(b);
        }
        j += 1;
    }
    proof {
        assert(cut@.skip(cut@.len() as int) =~= Seq::<u8>::empty());
        assert(norm@ + Seq::<u8>::empty() =~= norm@);
    }
    let mut lo: usize = 0;
    proof {
        assert(norm@.skip(0) =~= norm@);
    }
    while lo < norm.len() && norm[lo] == 32
        invariant
            lo <= norm@.len(),
            trim_start(norm@.skip(lo as int)) == trim_start(norm@),
            forall|t: int| 0 <= t < lo ==> norm@[t] == 32,
        decreases norm@.len() - lo,
    {
        proof {
            assert(norm@.skip(lo as int)[0] == norm@[lo as int]);
            assert(norm@.skip(lo as int).drop_first() =~= norm@.skip(lo + 1));
        }
        lo += 1;
    }
    let mut hi: usize = norm.len();
    proof {
        if lo < norm@.len() {
            assert(trim_start(norm@.skip(lo as int)) == norm@.skip(lo as int));
        } else {
            assert(norm@.skip(lo as int) =~= Seq::<u8>::empty());
        }
    }
    proof {
        if lo < norm@.len() {
            assert(norm@.skip(lo as int).take(norm@.len() - lo) =~= norm@.skip(lo as int));
        } else {
            assert(norm@.skip(lo as int).take(norm@.len() - lo) =~= Seq::<u8>::empty());
            assert(norm@.skip(lo as int) =~= Seq::<u8>::empty());
        }
    }
    while hi > lo && norm[hi - 1] == 32
        invariant
            lo <= hi <= norm@.len(),
            lo < norm@.len() ==> trim_start(norm@) == norm@.skip(lo as int),
            lo >= norm@.len() ==> trim_start(norm@) =~= Seq::<u8>::empty(),
            lo < norm@.len() ==> norm@[lo as int] != 32,
            trim_end(norm@.skip(lo as int).take(hi - lo)) == trim_end(trim_start(norm@)),
        decreases hi,
    {
        proof {
            let cur = norm@.skip(lo as int).take(hi - lo);
            assert(cur.len() == hi - lo);
            assert(cur[cur.len() - 1] == norm@[hi - 1]);
            assert(cur.drop_last() =~= norm@.skip(lo as int).take(hi - 1 - lo));
        }
        hi -= 1;
    }
    let mut out: Vec<u8> = Vec::new();
    let mut t: usize = lo;
    while t < hi
        invariant
            lo <= t <= hi <= norm@.len(),
            out@.len() == t - lo,
            forall|q: int| 0 <= q < out@.len() ==> out@[q] == norm@[lo + q],
        decreases hi - t,
    {
        out.push(norm[t]);
        t += 1;
    }
    proof {
        let cur = norm@.skip(lo as int).take(hi - lo);
        assert(out@ =~= cur);
        if hi == lo {
            assert(cur =~= Seq::<u8>::empty());
            assert(trim_end(cur) == cur);
        } else {
            assert(cur.len() > 0 && cur[cur.len() - 1] != 32);
            assert(trim_end(cur) == cur);
        }
    }
    out
}

/// The numeric value of a run of decimal digits.
pub open spec fn digits_value(s: Seq<u8>) -> int
    decreases s.len(),
{
    if s.len() == 0 {
        0
    } else {
        digits_value(s.drop_last()) * 10 + (s[s.len() - 1] - 48)
    }
}

/// Whether every byte is a decimal digit.
pub open spec fn all_digits(s: Seq<u8>) -> bool {
    forall|i: int| 0 <= i < s.len() ==> 48 <= #[trigger] s[i] <= 57
}

/// Parse an unsigned decimal number of at most `u64` size.  `None` exactly
/// when the token is empty, holds a non-digit, or does not fit.
pub fn parse_u64(tok: &[u8]) -> (r: Option<u64>)
    ensures
        match r {
            Option::Some(v) => tok@.len() > 0 && all_digits(tok@) && v == digits_value(tok@)
                && digits_value(tok@) <= u64::MAX,
            Option::None => tok@.len() == 0 || !all_digits(tok@) || digits_value(tok@)
                > u64::MAX,
        },
{
    if tok.len() == 0 {
        return None;
    }
    let mut acc: u64 = 0;
    let mut i: usize = 0;
    while i < tok.len()
        invariant
            i <= tok@.len(),
            all_digits(tok@.take(i as int)),
            acc == digits_value(tok@.take(i as int)),
        decreases tok@.len() - i,
    {
        let b = tok[i];
        if b < 48 || b > 57 {
            proof {
                assert(!all_digits(tok@));
            }
            return None;
        }
        let d = (b - 48) as u64;
        if acc > (u64::MAX - d) / 10 {
            proof {
                if all_digits(tok@) {
                    assert(tok@.take(i + 1).drop_last() =~= tok@.take(i as int));
                    assert(tok@.take(i + 1)[i as int] == tok@[i as int]);
                    assert(digits_value(tok@.take(i + 1)) == acc * 10 + d);
                    assert(acc * 10 + d > u64::MAX) by (nonlinear_arith)
                        requires
                            acc > (u64::MAX - d) / 10 && 0 <= d <= 9 && acc >= 0,
                    ;
                    lemma_digits_monotone(tok@, i + 1, tok@.len() as int);
                    assert(tok@.take(tok@.len() as int) =~= tok@);
                }
            }
            return None;
        }
        proof {
            assert(tok@.take(i + 1).drop_last() =~= tok@.take(i as int));
            assert(tok@.take(i + 1)[i as int] == tok@[i as int]);
        }
        acc = acc * 10 + d;
        i += 1;
    }
    proof {
        assert(tok@.take(tok@.len() as int) =~= tok@);
    }
    Some(acc)
}

/// Appending digits never shrinks the value.
proof fn lemma_digits_monotone(s: Seq<u8>, i: int, j: int)
    requires
        0 <= i <= j <= s.len(),
        all_digits(s),
    ensures
        digits_value(s.take(i)) <= digits_value(s.take(j)),
        digits_value(s.take(j)) >= 0,
    decreases j - i,
{
    if i == j {
        lemma_digits_nonneg(s.take(i));
    } else {
        lemma_digits_monotone(s, i, j - 1);
        assert(s.take(j).drop_last() =~= s.take(j - 1));
        assert(48 <= s[j - 1] <= 57);
    }
}

/// The value of digits is never negative.
proof fn lemma_digits_nonneg(s: Seq<u8>)
    requires
        all_digits(s),
    ensures
        digits_value(s) >= 0,
    decreases s.len(),
{
    if s.len() > 0 {
        assert(all_digits(s.drop_last())) by {
            assert(forall|i: int|
                0 <= i < s.drop_last().len() ==> s.drop_last()[i] == #[trigger] s[i]);
        }
        lemma_digits_nonneg(s.drop_last());
        assert(48 <= s[s.len() - 1] <= 57);
    }
}

/// Split the preprocessed line into space-separated tokens.  Tokens are
/// nonempty and hold no spaces.
pub fn tokenize(line: &Vec<u8>) -> (r: Vec<Vec<u8>>)
    ensures
        forall|i: int|
            0 <= i < r@.len() ==> ((#[trigger] r@[i])@.len() > 0 && forall|j: int|
                0 <= j < r@[i]@.len() ==> (#[trigger] r@[i]@[j]) != 32),
        forall|i: int|
            0 <= i < r@.len() ==> exists|a: int, b: int|
                0 <= a <= b <= line@.len() && (#[trigger] r@[i])@ == line@.subrange(a, b),
        line@.len() == 0 ==> r@.len() == 0,
        (line@.len() > 0 && line@[0] != 32) ==> r@.len() > 0,
{
    let mut r: Vec<Vec<u8>> = Vec::new();
    let mut current: Vec<u8> = Vec::new();
    let mut i: usize = 0;
    let ghost mut tok_start: int = 0;
    while i < line.len()
        invariant
            i <= line@.len(),
            0 <= tok_start <= i,
            current@ == line@.subrange(tok_start, i as int),
            forall|t: int|
                0 <= t < r@.len() ==> ((#[trigger] r@[t])@.len() > 0 && forall|j: int|
                    0 <= j < r@[t]@.len() ==> (#[trigger] r@[t]@[j]) != 32),
            forall|t: int|
                0 <= t < r@.len() ==> exists|a: int, b: int|
                    0 <= a <= b <= line@.len() && (#[trigger] r@[t])@ == line@.subrange(a, b),
            forall|j: int| 0 <= j < current@.len() ==> (#[trigger] current@[j]) != 32,
            (exists|j: int| 0 <= j < i && line@[j] != 32) ==> (r@.len() > 0 || current@.len()
                > 0),
            i == 0 ==> (r@.len() == 0 && current@.len() == 0),
        decreases line@.len() - i,
    {
        let b = line[i];
        if b == 32 {
            if current.len() > 0 {
                r.push(current);
                current = Vec::new();
            }
            proof {
                tok_start = i + 1;
                assert(line@.subrange(tok_start, i + 1) =~= Seq::<u8>::empty());
            }
        } else {
            proof {
                assert(line@.subrange(tok_start, i + 1) =~= line@.subrange(tok_start, i as int).push(
                    line@[i as int],
                ));
            }
            current.push(b);
        }
        i += 1;
    }
    if current.len() > 0 {
        r.push(current);
    }
    r
}

/// The protocol commands this engine knows.
#[derive(Clone, Copy, Debug, PartialEq, Eq, Structural)]
pub enum KnownCommand {
    BoardSize,
    ClearBoard,
    FinalScore,
    GenMove,
    KnownCommandQ,
    Komi,
    ListCommands,
    LoadSgf,
    Name,
    Play,
    ProtocolVersion,
    Quit,
    ShowBoard,
    TimeLeft,
    TimeSettings,
    Version,
}

/// The wire name of each command.
pub fn command_name(c: KnownCommand) -> (r: &'static str)
    ensures
        r.spec_bytes() == spec_command_name(c),
{
    match c {
        KnownCommand::BoardSize => "boardsize",
        KnownCommand::ClearBoard => "clear_board",
        KnownCommand::FinalScore => "final_score",
        KnownCommand::GenMove => "genmove",
        KnownCommand::KnownCommandQ => "known_command",
        KnownCommand::Komi => "komi",
        KnownCommand::ListCommands => "list_commands",
        KnownCommand::LoadSgf => "loadsgf",
        KnownCommand::Name => "name",
        KnownCommand::Play => "play",
        KnownCommand::ProtocolVersion => "protocol_version",
        KnownCommand::Quit => "quit",
        KnownCommand::ShowBoard => "showboard",
        KnownCommand::TimeLeft => "time_left",
        KnownCommand::TimeSettings => "time_settings",
        KnownCommand::Version => "version",
    }
}

/// The wire name of each command, as bytes.
pub open spec fn spec_command_name(c: KnownCommand) -> Seq<u8> {
    match c {
        KnownCommand::BoardSize => ("boardsize").spec_bytes(),
        KnownCommand::ClearBoard => ("clear_board").spec_bytes(),
        KnownCommand::FinalScore => ("final_score").spec_bytes(),
        KnownCommand::GenMove => ("genmove").spec_bytes(),
        KnownCommand::KnownCommandQ => ("known_command").spec_bytes(),
        KnownCommand::Komi => ("komi").spec_bytes(),
        KnownCommand::ListCommands => ("list_commands").spec_bytes(),
        KnownCommand::LoadSgf => ("loadsgf").spec_bytes(),
        KnownCommand::Name => ("name").spec_bytes(),
        KnownCommand::Play => ("play").spec_bytes(),
        KnownCommand::ProtocolVersion => ("protocol_version").spec_bytes(),
        KnownCommand::Quit => ("quit").spec_bytes(),
        KnownCommand::ShowBoard => ("showboard").spec_bytes(),
        KnownCommand::TimeLeft => ("time_left").spec_bytes(),
        KnownCommand::TimeSettings => ("time_settings").spec_bytes(),
        KnownCommand::Version => ("version").spec_bytes(),
    }
}

/// Whether a token spells a name, byte for byte.
fn token_is(tok: &Vec<u8>, name: &str) -> (r: bool)
    ensures
        r == (tok@ == name.spec_bytes()),
{
    let bytes = name.as_bytes();
    if tok.len() != bytes.len() {
        return false;
    }
    let mut i: usize = 0;
    while i < tok.len()
        invariant
            i <= tok@.len(),
            tok@.len() == bytes@.len(),
            bytes@ == name.spec_bytes(),
            forall|j: int| 0 <= j < i ==> tok@[j] == bytes@[j],
        decreases tok@.len() - i,
    {
        if tok[i] != bytes[i] {
            return false;
        }
        i += 1;
    }
    proof {
        assert(tok@ =~= bytes@);
    }
    true
}

/// The command a token names, if any.
pub fn enumify(tok: &Vec<u8>) -> (r: Option<KnownCommand>)
    ensures
        match r {
            Option::Some(c) => tok@ == spec_command_name(c),
            Option::None => forall|c: KnownCommand| tok@ != #[trigger] spec_command_name(c),
        },
{
    if token_is(tok, "boardsize") {
        return Some(KnownCommand::BoardSize);
    }
    if token_is(tok, "clear_board") {
        return Some(KnownCommand::ClearBoard);
    }
    if token_is(tok, "final_score") {
        return Some(KnownCommand::FinalScore);
    }
    if token_is(tok, "genmove") {
        return Some(KnownCommand::GenMove);
    }
    if token_is(tok, "known_command") {
        return Some(KnownCommand::KnownCommandQ);
    }
    if token_is(tok, "komi") {
        return Some(KnownCommand::Komi);
    }
    if token_is(tok, "list_commands") {
        return Some(KnownCommand::ListCommands);
    }
    if token_is(tok, "loadsgf") {
        return Some(KnownCommand::LoadSgf);
    }
    if token_is(tok, "name") {
        return Some(KnownCommand::Name);
    }
    if token_is(tok, "play") {
        return Some(KnownCommand::Play);
    }
    if token_is(tok, "protocol_version") {
        return Some(KnownCommand::ProtocolVersion);
    }
    if token_is(tok, "quit") {
        return Some(KnownCommand::Quit);
    }
    if token_is(tok, "showboard") {
        return Some(KnownCommand::ShowBoard);
    }
    if token_is(tok, "time_left") {
        return Some(KnownCommand::TimeLeft);
    }
    if token_is(tok, "time_settings") {
        return Some(KnownCommand::TimeSettings);
    }
    if token_is(tok, "version") {
        return Some(KnownCommand::Version);
    }
    proof {
        assert forall|c: KnownCommand| tok@ != #[trigger] spec_command_name(c) by {
            match c {
                KnownCommand::BoardSize => {},
                KnownCommand::ClearBoard => {},
                KnownCommand::FinalScore => {},
                KnownCommand::GenMove => {},
                KnownCommand::KnownCommandQ => {},
                KnownCommand::Komi => {},
                KnownCommand::ListCommands => {},
                KnownCommand::LoadSgf => {},
                KnownCommand::Name => {},
                KnownCommand::Play => {},
                KnownCommand::ProtocolVersion => {},
                KnownCommand::Quit => {},
                KnownCommand::ShowBoard => {},
                KnownCommand::TimeLeft => {},
                KnownCommand::TimeSettings => {},
                KnownCommand::Version => {},
            }
        }
    }
    None
}

/// The newline-separated list of known command names.
pub fn stringify() -> String {
    let mut s = String::new();
    s.append("boardsize\nclear_board\nfinal_score\ngenmove\nknown_command\nkomi\n");
    s.append("list_commands\nloadsgf\nname\nplay\nprotocol_version\nquit\nshowboard\n");
    s.append("time_left\ntime_settings\nversion");
    s
}

/// The column a vertex letter names (`i` is skipped), or zero.
pub open spec fn spec_letter_col(b: u8) -> int {
    if 97 <= b <= 104 {
        b - 96
    } else if 106 <= b <= 122 {
        b - 97
    } else if 65 <= b <= 72 {
        b - 64
    } else if 74 <= b <= 90 {
        b - 65
    } else {
        0
    }
}

/// Parse a vertex such as `a1` or `T19`: a column letter (`i` never used)
/// and a 1-based row, both at most 25.
pub fn parse_vertex(tok: &[u8]) -> (r: Option<(u8, u8)>)
    ensures
        match r {
            Option::Some(v) => {
                &&& tok@.len() >= 2
                &&& v.0 == spec_letter_col(tok@[0])
                &&& 1 <= v.0 <= 25
                &&& all_digits(tok@.skip(1))
                &&& v.1 == digits_value(tok@.skip(1))
                &&& 1 <= v.1 <= 25
            },
            Option::None => true,
        },
{
    if tok.len() < 2 {
        return None;
    }
    let b = tok[0];
    let col: u8 = if 97 <= b && b <= 104 {
        b - 96
    } else if 106 <= b && b <= 122 {
        b - 97
    } else if 65 <= b && b <= 72 {
        b - 64
    } else if 74 <= b && b <= 90 {
        b - 65
    } else {
        return None;
    };
    if col > 25 {
        return None;
    }
    let mut digits: Vec<u8> = Vec::new();
    let mut i: usize = 1;
    while i < tok.len()
        invariant
            1 <= i <= tok@.len(),
            digits@ =~= tok@.skip(1).take(i - 1),
        decreases tok@.len() - i,
    {
        proof {
            assert(tok@.skip(1).take(i as int)
                =~= tok@.skip(1).take(i - 1).push(tok@[i as int]));
        }
        digits.push(tok[i]);
        i += 1;
    }
    proof {
        assert(tok@.skip(1).take(tok@.len() - 1) =~= tok@.skip(1));
    }
    match parse_u64(digits.as_slice()) {
        Option::Some(v) => {
            if 1 <= v && v <= 25 {
                Some((col, v as u8))
            } else {
                None
            }
        },
        Option::None => None,
    }
}

/// Which color a token names: the single letters `b`/`B`/`w`/`W`, or the
/// words `black`/`white` in either case; anything else names none.
pub open spec fn spec_parse_color(s: Seq<u8>) -> Option<Color> {
    if s.len() == 1 && (s[0] == 98 || s[0] == 66) {
        Some(Color::Black)
    } else if s.len() == 1 && (s[0] == 119 || s[0] == 87) {
        Some(Color::White)
    } else if s.len() != 1 && (s == ("black").spec_bytes() || s == ("BLACK").spec_bytes()) {
        Some(Color::Black)
    } else if s.len() != 1 && (s == ("white").spec_bytes() || s == ("WHITE").spec_bytes()) {
        Some(Color::White)
    } else {
        None
    }
}

/// Parse a color token: `b`, `black`, `w` or `white`, in either case.
pub fn parse_color(tok: &Vec<u8>) -> (r: Option<Color>)
    ensures
        r == spec_parse_color(tok@),
{
    if tok.len() == 1 {
        let b = tok[0];
        if b == 98 || b == 66 {
            return Some(Color::Black);
        }
        if b == 119 || b == 87 {
            return Some(Color::White);
        }
        return None;
    }
    if token_is(tok, "black") || token_is(tok, "BLACK") {
        return Some(Color::Black);
    }
    if token_is(tok, "white") || token_is(tok, "WHITE") {
        return Some(Color::White);
    }
    None
}

/// Parse a move for `color`: `pass`, `resign`, or a vertex.  A pass or a
/// resignation comes back exactly for those words; a play carries the
/// column and row the vertex token spells.
pub fn parse_move(color: Color, tok: &Vec<u8>) -> (r: Option<Move>)
    ensures
        match r {
            Option::Some(m) => m.spec_color() == color && (m is Pass || m is Resign || m is Play),
            Option::None => true,
        },
        (r == Some(Move::Pass(color))) <==> (tok@ == ("pass").spec_bytes() || tok@ == (
        "PASS").spec_bytes()),
        (r == Some(Move::Resign(color))) <==> (tok@ != ("pass").spec_bytes() && tok@ != (
        "PASS").spec_bytes() && tok@ == ("resign").spec_bytes()),
        match r {
            Option::Some(m) => m is Play ==> {
                &&& tok@.len() >= 2
                &&& all_digits(tok@.skip(1))
                &&& m == Move::Play(
                    color,
                    spec_letter_col(tok@[0]) as u8,
                    digits_value(tok@.skip(1)) as u8,
                )
                &&& 1 <= spec_letter_col(tok@[0]) <= 25
                &&& 1 <= digits_value(tok@.skip(1)) <= 25
            },
            Option::None => true,
        },
{
    if token_is(tok, "pass") || token_is(tok, "PASS") {
        return Some(Move::Pass(color));
    }
    if token_is(tok, "resign") {
        return Some(Move::Resign(color));
    }
    match parse_vertex(tok.as_slice()) {
        Option::Some((col, row)) => Some(Move::Play(color, col, row)),
        Option::None => None,
    }
}

/// The index of the first dot at or after `i`, or the length.
pub open spec fn first_dot(s: Seq<u8>, i: int) -> int
    decreases s.len() - i,
{
    if i < 0 || i >= s.len() {
        s.len() as int
    } else if s[i] == 46 {
        i
    } else {
        first_dot(s, i + 1)
    }
}

/// A scan that stops at the first dot agrees with `first_dot`.
proof fn lemma_first_dot_at(s: Seq<u8>, start: int, i: int)
    requires
        0 <= start <= i <= s.len(),
        forall|t: int| start <= t < i ==> s[t] != 46,
        i == s.len() || s[i] == 46,
    ensures
        first_dot(s, start) == i,
    decreases i - start,
{
    if start < i {
        lemma_first_dot_at(s, start + 1, i);
    }
}

/// The half-point value a komi token names: an optional minus sign, a run
/// of digits worth at most a thousand, and optionally `.0` or `.5`.
pub open spec fn spec_parse_komi2(s: Seq<u8>) -> Option<i32> {
    let neg = s.len() > 0 && s[0] == 45;
    let start: int = if neg {
        1
    } else {
        0
    };
    let dot = first_dot(s, start);
    let whole = s.subrange(start, dot);
    let half = dot + 2 == s.len() && s[dot + 1] == 53;
    let zero_frac = dot + 2 == s.len() && s[dot + 1] == 48;
    if !(dot == s.len() || half || zero_frac) {
        None
    } else if whole.len() == 0 || !all_digits(whole) || digits_value(whole) > 1000 {
        None
    } else {
        let v = 2 * digits_value(whole) + if half {
            1int
        } else {
            0int
        };
        Some((if neg {
            -v
        } else {
            v
        }) as i32)
    }
}

/// Parse a komi argument into half points: an optional minus sign, digits,
/// and optionally `.0` or `.5`.  `None` when the text has any other shape
/// or when the whole part is over a thousand.
pub fn parse_komi2(tok: &[u8]) -> (r: Option<i32>)
    ensures
        r == spec_parse_komi2(tok@),
{
    let mut i: usize = 0;
    let mut negative = false;
    if tok.len() > 0 && tok[0] == 45 {
        negative = true;
        i = 1;
    }
    let ghost start = i as int;
    let mut whole: Vec<u8> = Vec::new();
    while i < tok.len() && tok[i] != 46
        invariant
            0 <= start <= i <= tok@.len(),
            whole@ == tok@.subrange(start, i as int),
            forall|t: int| start <= t < i ==> tok@[t] != 46,
        decreases tok@.len() - i,
    {
        proof {
            assert(tok@.subrange(start, i + 1) =~= tok@.subrange(start, i as int).push(
                tok@[i as int],
            ));
        }
        whole.push(tok[i]);
        i += 1;
    }
    proof {
        lemma_first_dot_at(tok@, start, i as int);
    }
    let mut half: bool = false;
    if i < tok.len() {
        if tok.len() - i != 2 {
            return None;
        }
        let frac = tok[i + 1];
        if frac == 53 {
            half = true;
        } else if frac != 48 {
            return None;
        }
    }
    match parse_u64(whole.as_slice()) {
        Option::Some(v) => {
            if v > 1000 {
                return None;
            }
            let doubled = (v as i32) * 2 + if half {
                1
            } else {
                0
            };
            if negative {
                Some(-doubled)
            } else {
                Some(doubled)
            }
        },
        Option::None => None,
    }
}

/// The GTP name of a board point, such as `a1` or `t19`; columns skip `i`.
/// The characters of a vertex name: the column's letter (from the alphabet
/// with `i` left out), then the row's digit or two digits.
pub open spec fn spec_vertex_chars(col: u8, row: u8) -> Seq<char> {
    ("abcdefghjklmnopqrstuvwxyz")@.subrange(col - 1, col as int) + (if row >= 10 {
        ("0123456789")@.subrange(row as int / 10, row as int / 10 + 1)
    } else {
        Seq::<char>::empty()
    }) + ("0123456789")@.subrange(row as int % 10, row as int % 10 + 1)
}

pub fn vertex_to_gtp(col: u8, row: u8) -> (r: String)
    requires
        1 <= col <= 25,
        1 <= row <= 25,
    ensures
        r@ == spec_vertex_chars(col, row),
{
    let letters = "abcdefghjklmnopqrstuvwxyz";
    proof {
        reveal_strlit("abcdefghjklmnopqrstuvwxyz");
    }
    let letter = letters.substring_ascii((col - 1) as usize, col as usize);
    let mut s = String::from_str(letter);
    let digits = "0123456789";
    proof {
        reveal_strlit("0123456789");
    }
    if row >= 10 {
        let tens = (row / 10) as usize;
        let d1 = digits.substring_ascii(tens, tens + 1);
        s.append(d1);
    }
    let ones = (row % 10) as usize;
    let d0 = digits.substring_ascii(ones, ones + 1);
    s.append(d0);
    proof {
        assert(s@ =~= spec_vertex_chars(col, row));
    }
    s
}

/// The GTP text of a move.
pub fn move_to_gtp(m: &Move) -> (r: String) {
    match *m {
        Move::Play(_, col, row) => {
            if 1 <= col && col <= 25 && 1 <= row && row <= 25 {
                vertex_to_gtp(col, row)
            } else {
                String::from_str("pass")
            }
        },
        Move::Pass(_) => String::from_str("pass"),
        Move::Resign(_) => String::from_str("resign"),
        Move::NoMove => String::from_str("pass"),
    }
}

} // verus!
