//! Requests and responses of the wire protocol.
//!
//! A request is one line of whitespace-separated words; the first names the
//! command, in any letter case:
//! `GET <key>`, `SET <key> <value>`, `DELETE <key>` or `DEL <key>`,
//! `EXIST <key>`, `SCAN [<prefix>]`, `STATS`, `PING`. A single `SET` value
//! word is taken as base64 where it decodes and as its own bytes otherwise;
//! several value words are joined with single spaces and taken as bytes.

use vstd::prelude::*;
use vstd::string::StringExecFns;
use vstd::utf8::encode_utf8;
use crate::commands::{Command, CommandResponse};
use crate::commands::delete::DeleteCommand;
use crate::commands::exist::ExistCommand;
use crate::commands::get::GetCommand;
use crate::commands::scan::ScanCommand;
use crate::commands::set::SetCommand;
use crate::encoding::{bytes_of_base64, decode_base64};
use crate::text::{bytes_of, chars_of, decimal, digit_char, push_char, push_decimal, push_str, same_text};
use crate::encoding::{MAX_ENCODE_INPUT, base64_of, encode_base64};
use crate::storage::aof::{first_from, lemma_first_from_bounds};

verus! {

/// Why a request line could not be parsed.
#[derive(Debug, Clone, PartialEq, Eq)]
pub enum ProtocolError {
    InvalidFormat(String),
    UnknownCommand(String),
    MissingArguments(String),
}

impl ProtocolError {
    pub open spec fn message_spec(&self) -> Seq<char> {
        match self {
            ProtocolError::InvalidFormat(m) => "Invalid command format: "@ + m@,
            ProtocolError::UnknownCommand(m) => "Unknown command: "@ + m@,
            ProtocolError::MissingArguments(m) => "Missing arguments for command: "@ + m@,
        }
    }

    /// The human-readable text of the error.
    pub fn message(&self) -> (r: String)
        ensures
            r@ == self.message_spec(),
    {
        let mut s = String::new();
        match self {
            ProtocolError::InvalidFormat(m) => {
                push_str(&mut s, "Invalid command format: ");
                push_str(&mut s, m.as_str());
            },
            ProtocolError::UnknownCommand(m) => {
                push_str(&mut s, "Unknown command: ");
                push_str(&mut s, m.as_str());
            },
            ProtocolError::MissingArguments(m) => {
                push_str(&mut s, "Missing arguments for command: ");
                push_str(&mut s, m.as_str());
            },
        }
        assert(s@ =~= self.message_spec());
        s
    }
}

/// What `str::to_uppercase` makes of `s`.
pub uninterp spec fn upper_of(s: Seq<char>) -> Seq<char>;

/// Relies on `str::to_uppercase`: the result depends on the characters
/// alone.
#[verifier::external_body]
fn uppercase(s: &str) -> (r: String)
    ensures
        r@ == upper_of(s@),
{
    s.to_uppercase()
}

/// Unicode white space, as `char::is_whitespace` defines it.
pub open spec fn is_space(c: char) -> bool {
    ('\u{9}' <= c <= '\u{d}') || c == ' ' || c == '\u{85}' || c == '\u{a0}' || c == '\u{1680}'
        || ('\u{2000}' <= c <= '\u{200a}') || c == '\u{2028}' || c == '\u{2029}' || c
        == '\u{202f}' || c == '\u{205f}' || c == '\u{3000}'
}

fn is_space_exec(c: char) -> (r: bool)
    ensures
        r == is_space(c),
{
    ('\u{9}' <= c && c <= '\u{d}') || c == ' ' || c == '\u{85}' || c == '\u{a0}' || c
        == '\u{1680}' || ('\u{2000}' <= c && c <= '\u{200a}') || c == '\u{2028}' || c
        == '\u{2029}' || c == '\u{202f}' || c == '\u{205f}' || c == '\u{3000}'
}

/// The end of the word starting at `i`: the first white space at or after
/// `i`, or the length.
pub open spec fn word_end(s: Seq<char>, i: int) -> int
    decreases s.len() - i,
{
    if i < 0 || i >= s.len() {
        s.len() as int
    } else if is_space(s[i]) {
        i
    } else {
        word_end(s, i + 1)
    }
}

proof fn lemma_word_end_bounds(s: Seq<char>, i: int)
    requires
        0 <= i <= s.len(),
    ensures
        i <= word_end(s, i) <= s.len(),
        forall|j: int| i <= j < word_end(s, i) ==> !is_space(s[j]),
        word_end(s, i) < s.len() ==> is_space(s[word_end(s, i)]),
    decreases s.len() - i,
{
    if i < s.len() && !is_space(s[i]) {
        lemma_word_end_bounds(s, i + 1);
    }
}

/// The words of `s` from index `i` on: maximal runs of characters that are
/// not white space.
pub open spec fn words_from(s: Seq<char>, i: int) -> Seq<Seq<char>>
    decreases s.len() - i,
    via words_from_decreases
{
    if i < 0 || i >= s.len() {
        Seq::empty()
    } else if is_space(s[i]) {
        words_from(s, i + 1)
    } else {
        seq![s.subrange(i, word_end(s, i))] + words_from(s, word_end(s, i))
    }
}

#[via_fn]
proof fn words_from_decreases(s: Seq<char>, i: int) {
    if 0 <= i < s.len() && !is_space(s[i]) {
        lemma_word_end_bounds(s, i + 1);
    }
}

/// The words of `s`, in order.
pub open spec fn words(s: Seq<char>) -> Seq<Seq<char>> {
    words_from(s, 0)
}

/// The words of a line, as `str::split_whitespace` gives them.
pub fn tokenize(line: &str) -> (r: Vec<String>)
    ensures
        r@.len() == words(line@).len(),
        forall|i: int| 0 <= i < r@.len() ==> (#[trigger] r@[i])@ == words(line@)[i],
{
    let cs = chars_of(line);
    let mut out: Vec<String> = Vec::new();
    let mut i: usize = 0;
    while i < cs.len()
        invariant
            cs@ == line@,
            0 <= i <= cs@.len(),
            words(cs@) == out@.map_values(|t: String| t@) + words_from(cs@, i as int),
        decreases cs@.len() - i,
    {
        if is_space_exec(cs[i]) {
            i += 1;
        } else {
            let start = i;
            let mut word = String::new();
            while i < cs.len() && !is_space_exec(cs[i])
                invariant
                    cs@ == line@,
                    start <= i <= cs@.len(),
                    word@ == cs@.subrange(start as int, i as int),
                    forall|j: int| start <= j < i ==> !is_space(cs@[j]),
                decreases cs@.len() - i,
            {
                push_char(&mut word, cs[i]);
                i += 1;
                assert(word@ =~= cs@.subrange(start as int, i as int));
            }
            proof {
                lemma_word_end_bounds(cs@, start as int);
                lemma_word_end_skips(cs@, start as int, i as int);
            }
            let ghost before = out@.map_values(|t: String| t@);
            out.push(word);
            assert(out@.map_values(|t: String| t@) =~= before.push(cs@.subrange(start as int, i as int)));
        }
    }
    assert(words_from(cs@, i as int) =~= Seq::<Seq<char>>::empty());
    assert(out@.map_values(|t: String| t@) =~= words(line@));
    proof {
        assert forall|k: int| 0 <= k < out@.len() implies (#[trigger] out@[k])@ == words(line@)[k] by {
            assert(out@.map_values(|t: String| t@)[k] == out@[k]@);
        }
    }
    out
}

proof fn lemma_word_end_skips(s: Seq<char>, i: int, j: int)
    requires
        0 <= i <= j <= s.len(),
        forall|t: int| i <= t < j ==> !is_space(s[t]),
        j == s.len() || is_space(s[j]),
    ensures
        word_end(s, i) == j,
    decreases j - i,
{
    if i < j {
        lemma_word_end_skips(s, i + 1, j);
    }
}

/// Words joined with single spaces.
pub open spec fn joined(ws: Seq<Seq<char>>) -> Seq<char>
    decreases ws.len(),
{
    if ws.len() == 0 {
        Seq::empty()
    } else if ws.len() == 1 {
        ws[0]
    } else {
        joined(ws.drop_last()) + seq![' '] + ws.last()
    }
}

fn join_from(ws: &Vec<String>, from: usize) -> (r: String)
    requires
        from <= ws@.len(),
    ensures
        r@ == joined(ws@.subrange(from as int, ws@.len() as int).map_values(|t: String| t@)),
{
    let mut s = String::new();
    let mut i = from;
    while i < ws.len()
        invariant
            from <= i <= ws@.len(),
            s@ == joined(ws@.subrange(from as int, i as int).map_values(|t: String| t@)),
        decreases ws@.len() - i,
    {
        let ghost prev = ws@.subrange(from as int, i as int).map_values(|t: String| t@);
        if i > from {
            push_char(&mut s, ' ');
        }
        push_str(&mut s, ws[i].as_str());
        i += 1;
        let ghost next = ws@.subrange(from as int, i as int).map_values(|t: String| t@);
        assert(next.drop_last() =~= prev);
        assert(s@ =~= joined(next));
    }
    s
}

/// What `parse_command` answers for a line whose words are `ws`, whose
/// uppercased first word is `name`, and where `decoded` is what decoding
/// the third word as base64 gives.
pub open spec fn parses_as(
    ws: Seq<Seq<char>>,
    name: Seq<char>,
    decoded: Option<Seq<u8>>,
    r: Result<Command, ProtocolError>,
) -> bool {
    if ws.len() == 0 {
        r matches Err(ProtocolError::InvalidFormat(_))
    } else if name == "GET"@ || name == "EXIST"@ || name == "DELETE"@ || name == "DEL"@ {
        if ws.len() < 2 {
            r matches Err(ProtocolError::MissingArguments(_))
        } else if name == "GET"@ {
            r matches Ok(Command::Get(c)) && c.key@ == ws[1]
        } else if name == "EXIST"@ {
            r matches Ok(Command::Exist(c)) && c.key@ == ws[1]
        } else {
            r matches Ok(Command::Delete(c)) && c.key@ == ws[1]
        }
    } else if name == "SET"@ {
        if ws.len() < 3 {
            r matches Err(ProtocolError::MissingArguments(_))
        } else {
            r matches Ok(Command::Put(c)) && c.key@ == ws[1] && c.ttl is None && c.value@ == (
            if ws.len() == 3 {
                match decoded {
                    Some(v) => v,
                    None => encode_utf8(ws[2]),
                }
            } else {
                encode_utf8(joined(ws.subrange(2, ws.len() as int)))
            })
        }
    } else if name == "SCAN"@ {
        r matches Ok(Command::Scan(c)) && c.prefix@ == (if ws.len() >= 2 {
            ws[1]
        } else {
            Seq::empty()
        })
    } else if name == "STATS"@ {
        r matches Ok(Command::Stats)
    } else if name == "PING"@ {
        r matches Ok(Command::Ping)
    } else {
        r matches Err(ProtocolError::UnknownCommand(m)) && m@ == name
    }
}

/// The request lines of `s` from index `i` on: its lines, as separated by
/// line feeds, that hold at least one word.
pub open spec fn request_lines_from(s: Seq<char>, i: int) -> Seq<Seq<char>>
    decreases s.len() - i,
    via request_lines_from_decreases
{
    if i < 0 || i >= s.len() {
        Seq::empty()
    } else {
        let j = first_from(s, '\n', i);
        let l = s.subrange(i, j);
        let rest = if j < s.len() {
            request_lines_from(s, j + 1)
        } else {
            Seq::empty()
        };
        if words(l).len() > 0 {
            seq![l] + rest
        } else {
            rest
        }
    }
}

#[via_fn]
proof fn request_lines_from_decreases(s: Seq<char>, i: int) {
    if 0 <= i < s.len() {
        lemma_first_from_bounds(s, '\n', i);
    }
}

/// What `parse_command` answers for the line `l`.
pub open spec fn line_parses_as(l: Seq<char>, r: Result<Command, ProtocolError>) -> bool {
    parses_as(
        words(l),
        if words(l).len() > 0 {
            upper_of(words(l)[0])
        } else {
            Seq::empty()
        },
        if words(l).len() == 3 {
            bytes_of_base64(words(l)[2])
        } else {
            None
        },
        r,
    )
}

/// The rate `hits / (hits + misses)` with three decimals, rounded half up;
/// `0.000` where there were no reads.
pub open spec fn rate_text(hits: nat, misses: nat) -> Seq<char> {
    let t = hits + misses;
    let milli: nat = if t == 0 {
        0
    } else {
        ((2000 * hits + t) / (2 * t)) as nat
    };
    decimal(milli / 1000) + seq!['.', digit_char((milli % 1000) / 100), digit_char(
        (milli % 100) / 10,
    ), digit_char(milli % 10)]
}

/// The keys, each followed by a line feed.
pub open spec fn key_lines(ks: Seq<String>) -> Seq<char>
    decreases ks.len(),
{
    if ks.len() == 0 {
        Seq::empty()
    } else {
        key_lines(ks.drop_last()) + ks.last()@ + seq!['\n']
    }
}

/// The wire text of a response.
pub open spec fn response_text(r: CommandResponse) -> Seq<char> {
    match r {
        CommandResponse::Value(d) => "VALUE "@ + base64_of(d@) + seq!['\n'],
        CommandResponse::Success => "OK\n"@,
        CommandResponse::Bool(b) => if b {
            "TRUE\n"@
        } else {
            "FALSE\n"@
        },
        CommandResponse::Keys(ks) => "KEYS "@ + decimal(ks@.len()) + seq!['\n'] + key_lines(ks@),
        CommandResponse::Stats { total_keys, memory_usage, hits, misses, total_operations } =>
            "STATS total_keys="@ + decimal(total_keys as nat) + " memory_usage="@ + decimal(
            memory_usage as nat,
        ) + " hit_rate="@ + rate_text(hits as nat, misses as nat) + " total_operations:"@
            + decimal(total_operations as nat) + seq!['\n'],
        CommandResponse::Pong => "PONG\n"@,
        CommandResponse::Error(m) => "ERROR "@ + m@ + seq!['\n'],
    }
}

/// Appends the rate `hits / (hits + misses)` with three decimals.
pub fn push_rate(s: &mut String, hits: u64, misses: u64)
    ensures
        final(s)@ == old(s)@ + rate_text(hits as nat, misses as nat),
{
    let t: u128 = hits as u128 + misses as u128;
    let milli: u128 = if t == 0 {
        0
    } else {
        (2000 * hits as u128 + t) / (2 * t)
    };
    proof {
        if t > 0 {
            assert((2000 * hits + t) / (2 * t) <= 1000) by (nonlinear_arith)
                requires
                    hits <= t,
                    t > 0,
            ;
        }
    }
    let m = milli as u64;
    push_decimal(s, m / 1000);
    push_char(s, '.');
    push_decimal(s, (m % 1000) / 100);
    push_decimal(s, (m % 100) / 10);
    push_decimal(s, m % 10);
    proof {
        assert(decimal(((m % 1000) / 100) as nat) == seq![digit_char(((m % 1000) / 100) as nat)]);
        assert(decimal(((m % 100) / 10) as nat) == seq![digit_char(((m % 100) / 10) as nat)]);
        assert(decimal((m % 10) as nat) == seq![digit_char((m % 10) as nat)]);
        assert(final(s)@ =~= old(s)@ + rate_text(hits as nat, misses as nat));
    }
}

/// Parses request lines.
pub struct ProtocolParser;

impl ProtocolParser {
    /// Builds the command of a line from its words, the uppercased first
    /// word and the base64 decoding of the third word.
    pub fn command_from_words(
        words: Vec<String>,
        name: &String,
        decoded: Option<Vec<u8>>,
    ) -> (r: Result<Command, ProtocolError>)
        ensures
            parses_as(
                words@.map_values(|t: String| t@),
                name@,
                match decoded {
                    Some(v) => Some(v@),
                    None => None,
                },
                r,
            ),
    {
        let ghost ws = words@.map_values(|t: String| t@);
        proof {
            reveal_strlit("GET");
            reveal_strlit("EXIST");
            reveal_strlit("DELETE");
            reveal_strlit("DEL");
            reveal_strlit("SET");
            reveal_strlit("SCAN");
            reveal_strlit("STATS");
            reveal_strlit("PING");
        }
        let n = words.len();
        if n == 0 {
            return Err(ProtocolError::InvalidFormat(String::from_str("Empty command")));
        }
        let nm = name.as_str();
        if same_text(nm, "GET") || same_text(nm, "EXIST") || same_text(nm, "DELETE") || same_text(
            nm,
            "DEL",
        ) {
            if n < 2 {
                return Err(
                    ProtocolError::MissingArguments(String::from_str("command requires a key")),
                );
            }
            let key = words[1].clone();
            assert(key@ == ws[1]);
            if same_text(nm, "GET") {
                Ok(Command::Get(GetCommand::new(key)))
            } else if same_text(nm, "EXIST") {
                Ok(Command::Exist(ExistCommand::new(key)))
            } else {
                Ok(Command::Delete(DeleteCommand::new(key)))
            }
        } else if same_text(nm, "SET") {
            if n < 3 {
                return Err(
                    ProtocolError::MissingArguments(String::from_str("SET requires key and value")),
                );
            }
            let key = words[1].clone();
            assert(key@ == ws[1]);
            let value = if n == 3 {
                match decoded {
                    Some(v) => v,
                    None => bytes_of(words[2].as_str()),
                }
            } else {
                let joined_text = join_from(&words, 2);
                assert(words@.subrange(2, n as int).map_values(|t: String| t@) =~= ws.subrange(
                    2,
                    n as int,
                ));
                bytes_of(joined_text.as_str())
            };
            Ok(Command::Put(SetCommand::new(key, value)))
        } else if same_text(nm, "SCAN") {
            let prefix = if n >= 2 {
                words[1].clone()
            } else {
                String::new()
            };
            Ok(Command::Scan(ScanCommand::new(prefix)))
        } else if same_text(nm, "STATS") {
            Ok(Command::Stats)
        } else if same_text(nm, "PING") {
            Ok(Command::Ping)
        } else {
            Err(ProtocolError::UnknownCommand(name.clone()))
        }
    }

    /// Parses one request line.
    pub fn parse_command(message: &str) -> (r: Result<Command, ProtocolError>)
        ensures
            parses_as(
                words(message@),
                if words(message@).len() > 0 {
                    upper_of(words(message@)[0])
                } else {
                    Seq::empty()
                },
                if words(message@).len() == 3 {
                    bytes_of_base64(words(message@)[2])
                } else {
                    None
                },
                r,
            ),
    {
        let ghost ws = words(message@);
        let toks = tokenize(message);
        assert(toks@.map_values(|t: String| t@) =~= ws);
        if toks.len() == 0 {
            return Err(ProtocolError::InvalidFormat(String::from_str("Empty command")));
        }
        let name = uppercase(toks[0].as_str());
        let decoded = if toks.len() == 3 {
            decode_base64(toks[2].as_str())
        } else {
            None
        };
        Self::command_from_words(toks, &name, decoded)
    }

    /// Parses every line of `buffer` that holds a word, in order.
    pub fn parse_commands(buffer: &str) -> (r: Vec<Result<Command, ProtocolError>>)
        ensures
            r@.len() == request_lines_from(buffer@, 0).len(),
            forall|i: int|
                0 <= i < r@.len() ==> line_parses_as(
                    request_lines_from(buffer@, 0)[i],
                    #[trigger] r@[i],
                ),
    {
        let cs = chars_of(buffer);
        let mut out: Vec<Result<Command, ProtocolError>> = Vec::new();
        let mut i: usize = 0;
        while i < cs.len()
            invariant
                cs@ == buffer@,
                0 <= i <= cs@.len(),
                out@.len() + request_lines_from(cs@, i as int).len() == request_lines_from(
                    cs@,
                    0,
                ).len(),
                forall|k: int|
                    0 <= k < out@.len() ==> line_parses_as(
                        request_lines_from(cs@, 0)[k],
                        #[trigger] out@[k],
                    ),
                forall|k: int|
                    0 <= k < request_lines_from(cs@, i as int).len() ==> request_lines_from(
                        cs@,
                        i as int,
                    )[k] == request_lines_from(cs@, 0)[out@.len() + k],
            decreases cs@.len() - i,
        {
            let mut j = i;
            while j < cs.len() && cs[j] != '\n'
                invariant
                    i <= j <= cs@.len(),
                    forall|t: int| i <= t < j ==> cs@[t] != '\n',
                decreases cs@.len() - j,
            {
                j += 1;
            }
            proof {
                crate::storage::aof::lemma_first_from_skips(cs@, '\n', i as int, j as int);
            }
            let mut line = String::new();
            let mut t = i;
            while t < j
                invariant
                    i <= t <= j <= cs@.len(),
                    line@ == cs@.subrange(i as int, t as int),
                decreases j - t,
            {
                push_char(&mut line, cs[t]);
                t += 1;
                assert(line@ =~= cs@.subrange(i as int, t as int));
            }
            let ghost rest = if j < cs@.len() {
                request_lines_from(cs@, j + 1)
            } else {
                Seq::empty()
            };
            let toks = tokenize(line.as_str());
            if toks.len() > 0 {
                let parsed = Self::parse_command(line.as_str());
                proof {
                    assert(request_lines_from(cs@, i as int) == seq![line@] + rest);
                    assert(request_lines_from(cs@, i as int)[0] == line@);
                }
                out.push(parsed);
                proof {
                    assert forall|k: int| 0 <= k < rest.len() implies rest[k]
                        == request_lines_from(cs@, 0)[out@.len() + k] by {
                        assert(request_lines_from(cs@, i as int)[k + 1] == rest[k]);
                    }
                }
            } else {
                proof {
                    assert(request_lines_from(cs@, i as int) == rest);
                }
            }
            if j < cs.len() {
                i = j + 1;
            } else {
                i = j;
                proof {
                    assert(rest =~= Seq::<Seq<char>>::empty());
                }
            }
        }
        out
    }

    /// The wire text of a response. A value too long to encode is refused.
    pub fn serialize_response(response: &CommandResponse) -> (r: Result<String, ProtocolError>)
        ensures
            r is Ok <==> !(response matches CommandResponse::Value(d) && d@.len() > MAX_ENCODE_INPUT),
            r is Ok ==> r->Ok_0@ == response_text(*response),
    {
        let mut s = String::new();
        match response {
            CommandResponse::Value(data) => {
                if data.len() > MAX_ENCODE_INPUT {
                    return Err(ProtocolError::InvalidFormat(String::from_str("value too large to encode")));
                }
                let encoded = encode_base64(data.as_slice());
                push_str(&mut s, "VALUE ");
                push_str(&mut s, encoded.as_str());
                push_char(&mut s, '\n');
            },
            CommandResponse::Success => {
                push_str(&mut s, "OK\n");
            },
            CommandResponse::Bool(b) => {
                if *b {
                    push_str(&mut s, "TRUE\n");
                } else {
                    push_str(&mut s, "FALSE\n");
                }
            },
            CommandResponse::Keys(keys) => {
                push_str(&mut s, "KEYS ");
                push_decimal(&mut s, keys.len() as u64);
                push_char(&mut s, '\n');
                let ghost head = s@;
                let mut i: usize = 0;
                while i < keys.len()
                    invariant
                        0 <= i <= keys@.len(),
                        s@ == head + key_lines(keys@.subrange(0, i as int)),
                    decreases keys@.len() - i,
                {
                    push_str(&mut s, keys[i].as_str());
                    push_char(&mut s, '\n');
                    i += 1;
                    assert(keys@.subrange(0, i as int).drop_last() =~= keys@.subrange(0, i - 1));
                    assert(s@ =~= head + key_lines(keys@.subrange(0, i as int)));
                }
                assert(keys@.subrange(0, i as int) =~= keys@);
            },
            CommandResponse::Stats { total_keys, memory_usage, hits, misses, total_operations } => {
                push_str(&mut s, "STATS total_keys=");
                push_decimal(&mut s, *total_keys as u64);
                push_str(&mut s, " memory_usage=");
                push_decimal(&mut s, *memory_usage as u64);
                push_str(&mut s, " hit_rate=");
                push_rate(&mut s, *hits, *misses);
                push_str(&mut s, " total_operations:");
                push_decimal(&mut s, *total_operations);
                push_char(&mut s, '\n');
            },
            CommandResponse::Pong => {
                push_str(&mut s, "PONG\n");
            },
            CommandResponse::Error(m) => {
                push_str(&mut s, "ERROR ");
                push_str(&mut s, m.as_str());
                push_char(&mut s, '\n');
            },
        }
        assert(s@ =~= response_text(*response));
        Ok(s)
    }
}

} // verus!
