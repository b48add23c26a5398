//! The command-line argument parser and the adapters that connect a line of
//! operator input to the command registry.
//!
//! An argument string is a sequence of `name:value` pairs separated by
//! spaces; a value is either a run of non-space characters or a quoted run
//! `'...'` that may contain spaces. A quoted value left unterminated at the
//! end of the line is discarded; an unquoted one is kept. When one name
//! appears twice, the later value wins. The raw pairs are then checked
//! against a command's argument descriptions and converted to their declared
//! types; a missing or mistyped argument is reported and the command is not
//! invoked.

use vstd::prelude::*;

use crate::cmd_manager::ArgDescription;
use crate::cmd_manager::ArgType;
use crate::cmd_manager::ArgsList;
use crate::cmd_manager::CmdManager;
use crate::cmd_manager::CmdHandler;
use crate::table::assoc_lookup;
use crate::table::string_pairs_view;
use crate::text::spec_find_char;
use crate::text::find_char;
use crate::text::str_eq;
use crate::text::substring_copy;

verus! {

/// The scanner's state while walking an argument string.
#[derive(PartialEq, Eq, Structural, Clone, Copy, Debug)]
pub enum ArgsParserState {
    WaitForArgNameStart,
    ReadingArgName,
    WaitForArgValue,
    ReadingStringValue,
    ReadingNonStringValue,
}

/// The pairs completed by scanning `chars` from position `i` onward,
/// starting in state `st` with the partially read name and value. This is
/// the grammar of the argument string, written as the scan it is.
pub open spec fn scan_args(
    chars: Seq<char>,
    i: int,
    st: ArgsParserState,
    name: Seq<char>,
    value: Seq<char>,
) -> Seq<(Seq<char>, Seq<char>)>
    decreases chars.len() - i,
{
    if i < 0 || i >= chars.len() {
        if st is ReadingNonStringValue {
            seq![(name, value)]
        } else {
            Seq::empty()
        }
    } else {
        let c = chars[i];
        match st {
            ArgsParserState::WaitForArgNameStart => if c == ' ' {
                scan_args(chars, i + 1, st, name, value)
            } else {
                scan_args(chars, i + 1, ArgsParserState::ReadingArgName, name.push(c), value)
            },
            ArgsParserState::ReadingArgName => if c == ':' {
                scan_args(chars, i + 1, ArgsParserState::WaitForArgValue, name, value)
            } else {
                scan_args(chars, i + 1, ArgsParserState::ReadingArgName, name.push(c), value)
            },
            ArgsParserState::WaitForArgValue => if c == '\'' {
                scan_args(chars, i + 1, ArgsParserState::ReadingStringValue, name, value)
            } else if c == ' ' {
                scan_args(chars, i + 1, st, name, value)
            } else {
                scan_args(
                    chars,
                    i + 1,
                    ArgsParserState::ReadingNonStringValue,
                    name,
                    value.push(c),
                )
            },
            ArgsParserState::ReadingStringValue => if c == '\'' {
                seq![(name, value)] + scan_args(
                    chars,
                    i + 1,
                    ArgsParserState::WaitForArgNameStart,
                    Seq::empty(),
                    Seq::empty(),
                )
            } else {
                scan_args(chars, i + 1, st, name, value.push(c))
            },
            ArgsParserState::ReadingNonStringValue => if c == ' ' {
                seq![(name, value)] + scan_args(
                    chars,
                    i + 1,
                    ArgsParserState::WaitForArgNameStart,
                    Seq::empty(),
                    Seq::empty(),
                )
            } else {
                scan_args(chars, i + 1, st, name, value.push(c))
            },
        }
    }
}

/// The (name, value) pairs an argument string denotes, in completion order.
pub open spec fn parse_raw_spec(s: Seq<char>) -> Seq<(Seq<char>, Seq<char>)> {
    scan_args(s, 0, ArgsParserState::WaitForArgNameStart, Seq::empty(), Seq::empty())
}

/// The name the scanner is carrying, given its state and markers.
spec fn cur_name(s: Seq<char>, st: ArgsParserState, ns: int, ne: int, i: int) -> Seq<char> {
    match st {
        ArgsParserState::WaitForArgNameStart => Seq::empty(),
        ArgsParserState::ReadingArgName => s.subrange(ns, i),
        _ => s.subrange(ns, ne),
    }
}

/// The value the scanner is carrying, given its state and markers.
spec fn cur_value(s: Seq<char>, st: ArgsParserState, vs: int, i: int) -> Seq<char> {
    match st {
        ArgsParserState::ReadingStringValue => s.subrange(vs, i),
        ArgsParserState::ReadingNonStringValue => s.subrange(vs, i),
        _ => Seq::empty(),
    }
}

/// Scans an argument string into its raw (name, value) pairs, in completion
/// order.
pub fn parse_raw(args_str: &str) -> (r: Vec<(String, String)>)
    ensures
        string_pairs_view(r@) == parse_raw_spec(args_str@),
{
    let ghost s = args_str@;
    let len = args_str.unicode_len();
    let mut result: Vec<(String, String)> = Vec::new();
    let mut state = ArgsParserState::WaitForArgNameStart;
    let mut ns: usize = 0;
    let mut ne: usize = 0;
    let mut vs: usize = 0;
    let mut i: usize = 0;
    proof {
        assert(string_pairs_view(result@) =~= Seq::<(Seq<char>, Seq<char>)>::empty());
        assert(Seq::<(Seq<char>, Seq<char>)>::empty() + parse_raw_spec(s) =~= parse_raw_spec(s));
    }
    while i < len
        invariant
            len == s.len(),
            s == args_str@,
            i <= len,
            state is ReadingArgName ==> ns <= i,
            (state is WaitForArgValue || state is ReadingStringValue
                || state is ReadingNonStringValue) ==> ns <= ne <= i,
            (state is ReadingStringValue || state is ReadingNonStringValue) ==> vs <= i,
            parse_raw_spec(s) == string_pairs_view(result@) + scan_args(
                s,
                i as int,
                state,
                cur_name(s, state, ns as int, ne as int, i as int),
                cur_value(s, state, vs as int, i as int),
            ),
        decreases len - i,
    {
        let ghost pre_result = result@;
        let ghost pre_state = state;
        let ghost n0 = cur_name(s, state, ns as int, ne as int, i as int);
        let ghost v0 = cur_value(s, state, vs as int, i as int);
        let c = args_str.get_char(i);
        match state {
            ArgsParserState::WaitForArgNameStart => {
                if c != ' ' {
                    ns = i;
                    state = ArgsParserState::ReadingArgName;
                    proof {
                        assert(cur_name(s, state, ns as int, ne as int, i as int + 1) =~= n0.push(
                            c,
                        ));
                    }
                }
            },
            ArgsParserState::ReadingArgName => {
                if c == ':' {
                    ne = i;
                    state = ArgsParserState::WaitForArgValue;
                } else {
                    proof {
                        assert(cur_name(s, state, ns as int, ne as int, i as int + 1) =~= n0.push(
                            c,
                        ));
                    }
                }
            },
            ArgsParserState::WaitForArgValue => {
                if c == '\'' {
                    vs = i + 1;
                    state = ArgsParserState::ReadingStringValue;
                    proof {
                        assert(cur_value(s, state, vs as int, i as int + 1) =~= Seq::<
                            char,
                        >::empty());
                    }
                } else if c == ' ' {
                } else {
                    vs = i;
                    state = ArgsParserState::ReadingNonStringValue;
                    proof {
                        assert(cur_value(s, state, vs as int, i as int + 1) =~= v0.push(c));
                    }
                }
            },
            ArgsParserState::ReadingStringValue => {
                if c == '\'' {
                    let name = substring_copy(args_str, ns, ne);
                    let value = substring_copy(args_str, vs, i);
                    result.push((name, value));
                    state = ArgsParserState::WaitForArgNameStart;
                    proof {
                        assert(string_pairs_view(result@) =~= string_pairs_view(pre_result).push((n0, v0)));
                        assert(string_pairs_view(pre_result) + (seq![(n0, v0)] + scan_args(
                            s,
                            i as int + 1,
                            state,
                            Seq::empty(),
                            Seq::empty(),
                        )) =~= string_pairs_view(result@) + scan_args(
                            s,
                            i as int + 1,
                            state,
                            Seq::empty(),
                            Seq::empty(),
                        ));
                    }
                } else {
                    proof {
                        assert(cur_value(s, state, vs as int, i as int + 1) =~= v0.push(c));
                    }
                }
            },
            ArgsParserState::ReadingNonStringValue => {
                if c == ' ' {
                    let name = substring_copy(args_str, ns, ne);
                    let value = substring_copy(args_str, vs, i);
                    result.push((name, value));
                    state = ArgsParserState::WaitForArgNameStart;
                    proof {
                        assert(string_pairs_view(result@) =~= string_pairs_view(pre_result).push((n0, v0)));
                        assert(string_pairs_view(pre_result) + (seq![(n0, v0)] + scan_args(
                            s,
                            i as int + 1,
                            state,
                            Seq::empty(),
                            Seq::empty(),
                        )) =~= string_pairs_view(result@) + scan_args(
                            s,
                            i as int + 1,
                            state,
                            Seq::empty(),
                            Seq::empty(),
                        ));
                    }
                } else {
                    proof {
                        assert(cur_value(s, state, vs as int, i as int + 1) =~= v0.push(c));
                    }
                }
            },
        }
        i = i + 1;
    }
    match state {
        ArgsParserState::ReadingNonStringValue => {
            let ghost n0 = cur_name(s, state, ns as int, ne as int, len as int);
            let ghost v0 = cur_value(s, state, vs as int, len as int);
            let name = substring_copy(args_str, ns, ne);
            let value = substring_copy(args_str, vs, len);
            let ghost pre_result = result@;
            result.push((name, value));
            proof {
                assert(scan_args(s, len as int, state, n0, v0) =~= seq![(n0, v0)]);
                assert(string_pairs_view(result@) =~= string_pairs_view(pre_result).push((n0, v0)));
                assert(string_pairs_view(pre_result) + seq![(n0, v0)] =~= string_pairs_view(result@));
            }
        },
        _ => {
            proof {
                let n0 = cur_name(s, state, ns as int, ne as int, len as int);
                let v0 = cur_value(s, state, vs as int, len as int);
                assert(scan_args(s, len as int, state, n0, v0) =~= Seq::<
                    (Seq<char>, Seq<char>),
                >::empty());
                assert(string_pairs_view(result@) + Seq::<(Seq<char>, Seq<char>)>::empty()
                    =~= string_pairs_view(result@));
            }
        },
    }
    result
}

/// The value the raw pairs give a name: the latest one, as a repeated name
/// overwrites its earlier value.
pub open spec fn raw_lookup(
    pairs: Seq<(Seq<char>, Seq<char>)>,
    name: Seq<char>,
) -> Option<Seq<char>>
    decreases pairs.len(),
{
    if pairs.len() == 0 {
        None
    } else if pairs.last().0 == name {
        Some(pairs.last().1)
    } else {
        raw_lookup(pairs.drop_last(), name)
    }
}

/// Looks a name up among the raw pairs, latest value first.
fn raw_get(pairs: &Vec<(String, String)>, name: &str) -> (r: Option<String>)
    ensures
        match r {
            Some(v) => raw_lookup(string_pairs_view(pairs@), name@) == Some(v@),
            None => raw_lookup(string_pairs_view(pairs@), name@) is None,
        },
{
    let ghost full = string_pairs_view(pairs@);
    let mut i: usize = pairs.len();
    proof {
        assert(full.take(pairs@.len() as int) =~= full);
    }
    while i > 0
        invariant
            i <= pairs@.len(),
            full == string_pairs_view(pairs@),
            raw_lookup(full, name@) == raw_lookup(full.take(i as int), name@),
        decreases i,
    {
        i = i - 1;
        proof {
            assert(full.take(i as int + 1).drop_last() =~= full.take(i as int));
            assert(full.take(i as int + 1).last() == full[i as int]);
        }
        if str_eq(pairs[i].0.as_str(), name) {
            return Some(pairs[i].1.clone());
        }
    }
    proof {
        assert(full.take(0) =~= Seq::<(Seq<char>, Seq<char>)>::empty());
    }
    None
}

/// Whether `c` is a decimal digit.
pub open spec fn is_digit_char(c: char) -> bool {
    48 <= c as int <= 57
}

/// Whether every character of `s` is a decimal digit.
pub open spec fn all_digits(s: Seq<char>) -> bool {
    forall|j: int| 0 <= j < s.len() ==> is_digit_char(#[trigger] s[j])
}

/// The number a digit string denotes.
pub open spec fn dec_value(s: Seq<char>) -> int
    decreases s.len(),
{
    if s.len() == 0 {
        0
    } else {
        dec_value(s.drop_last()) * 10 + (s.last() as int - 48)
    }
}

/// What `u64` a piece of text denotes: an optional leading plus sign, then
/// at least one digit, denoting a value that fits.
pub open spec fn u64_text(s: Seq<char>) -> Option<u64> {
    let body = if s.len() > 0 && s[0] == '+' {
        s.drop_first()
    } else {
        s
    };
    if body.len() > 0 && all_digits(body) && dec_value(body) <= u64::MAX {
        Some(dec_value(body) as u64)
    } else {
        None
    }
}

/// What boolean a piece of text denotes: `y` or `n`.
pub open spec fn bool_text(s: Seq<char>) -> Option<bool> {
    if s == "y"@ {
        Some(true)
    } else if s == "n"@ {
        Some(false)
    } else {
        None
    }
}

proof fn lemma_dec_value_nonneg(s: Seq<char>)
    requires
        all_digits(s),
    ensures
        dec_value(s) >= 0,
    decreases s.len(),
{
    if s.len() > 0 {
        assert(all_digits(s.drop_last())) by {
            assert(forall|j: int|
                0 <= j < s.drop_last().len() ==> s.drop_last()[j] == s[j]);
        }
        lemma_dec_value_nonneg(s.drop_last());
    }
}

proof fn lemma_dec_value_prefix_le(s: Seq<char>, j: int)
    requires
        all_digits(s),
        0 <= j <= s.len(),
    ensures
        dec_value(s.subrange(0, j)) <= dec_value(s),
    decreases s.len() - j,
{
    if j == s.len() {
        assert(s.subrange(0, j) =~= s);
    } else {
        lemma_dec_value_prefix_le(s, j + 1);
        let p = s.subrange(0, j);
        let q = s.subrange(0, j + 1);
        assert(q.drop_last() =~= p);
        assert(all_digits(p)) by {
            assert(forall|w: int| 0 <= w < p.len() ==> p[w] == s[w]);
        }
        lemma_dec_value_nonneg(p);
        assert(dec_value(q) == dec_value(p) * 10 + (q.last() as int - 48));
        assert(is_digit_char(s[j]));
        assert(dec_value(p) <= dec_value(q));
    }
}

/// Reads a `u64` from text: an optional leading plus sign, then at least
/// one digit; fails on anything else and on overflow, exactly as the spec
/// [`u64_text`] says.
pub fn parse_u64(s: &str) -> (r: Option<u64>)
    ensures
        r == u64_text(s@),
{
    let len = s.unicode_len();
    let mut start: usize = 0;
    if len > 0 && s.get_char(0) == '+' {
        start = 1;
    }
    let ghost body = if s@.len() > 0 && s@[0] == '+' {
        s@.drop_first()
    } else {
        s@
    };
    proof {
        assert(body =~= s@.subrange(start as int, len as int));
    }
    if start >= len {
        return None;
    }
    let mut acc: u64 = 0;
    let mut i: usize = start;
    while i < len
        invariant
            start <= i <= len,
            len == s@.len(),
            start <= 1,
            body == s@.subrange(start as int, len as int),
            body == (if s@.len() > 0 && s@[0] == '+' {
                s@.drop_first()
            } else {
                s@
            }),
            all_digits(s@.subrange(start as int, i as int)),
            acc as int == dec_value(s@.subrange(start as int, i as int)),
        decreases len - i,
    {
        let c = s.get_char(i);
        let code = c as u32;
        if !(code >= 48 && code <= 57) {
            proof {
                assert(body[i - start] == s@[i as int]);
                assert(!is_digit_char(body[i - start]));
                assert(!all_digits(body));
            }
            return None;
        }
        let d = (code - 48) as u64;
        let ghost prefix = s@.subrange(start as int, i as int);
        let ghost prefix1 = s@.subrange(start as int, i as int + 1);
        proof {
            assert(prefix1.drop_last() =~= prefix);
            assert(prefix1.last() == s@[i as int]);
            assert(dec_value(prefix1) == dec_value(prefix) * 10 + (s@[i as int] as int - 48));
            assert(all_digits(prefix1)) by {
                assert(forall|w: int| 0 <= w < prefix.len() ==> prefix1[w] == prefix[w]);
            }
        }
        let overflowed: bool;
        match acc.checked_mul(10) {
            None => {
                overflowed = true;
            },
            Some(m) => {
                match m.checked_add(d) {
                    None => {
                        overflowed = true;
                    },
                    Some(n) => {
                        overflowed = false;
                        acc = n;
                    },
                }
            },
        }
        if overflowed {
            proof {
                assert(dec_value(prefix1) > u64::MAX);
                if all_digits(body) {
                    assert(prefix1 =~= body.subrange(0, i as int + 1 - start));
                    lemma_dec_value_prefix_le(body, i as int + 1 - start);
                    assert(dec_value(body) > u64::MAX);
                }
                assert(u64_text(s@) is None);
            }
            return None;
        }
        proof {
            assert(acc as int == dec_value(prefix1));
        }
        i = i + 1;
    }
    proof {
        assert(s@.subrange(start as int, len as int) =~= body);
        assert(dec_value(body) == acc as int);
        assert(dec_value(body) <= u64::MAX);
        assert(body.len() > 0);
    }
    Some(acc)
}

/// The reason one described argument cannot be taken from the raw pairs.
#[derive(Debug, PartialEq, Eq, Structural, Clone, Copy)]
pub enum ParseError {
    /// The described argument does not appear in the input.
    MissingArg,
    /// The argument is declared an integer and its text is not one.
    InvalidU64,
    /// The argument is declared a boolean and its text is neither `y` nor `n`.
    InvalidBool,
}

/// The complaint, if any, that checking one described argument against the
/// raw pairs raises.
pub open spec fn arg_error(
    raw: Seq<(Seq<char>, Seq<char>)>,
    desc: ArgDescription,
) -> Option<ParseError> {
    match raw_lookup(raw, desc.call_name@) {
        None => Some(ParseError::MissingArg),
        Some(v) => match desc.arg_type {
            ArgType::U64 => if u64_text(v) is Some {
                None
            } else {
                Some(ParseError::InvalidU64)
            },
            ArgType::BOOL => if bool_text(v) is Some {
                None
            } else {
                Some(ParseError::InvalidBool)
            },
            ArgType::STRING => None,
        },
    }
}

/// The first complaint raised by checking the descriptions in order.
pub open spec fn first_parse_error(
    raw: Seq<(Seq<char>, Seq<char>)>,
    descs: Seq<ArgDescription>,
) -> Option<ParseError>
    decreases descs.len(),
{
    if descs.len() == 0 {
        None
    } else {
        match arg_error(raw, descs[0]) {
            Some(e) => Some(e),
            None => first_parse_error(raw, descs.drop_first()),
        }
    }
}

/// How many of the descriptions up to position `n` declare type `t`.
pub open spec fn count_type(descs: Seq<ArgDescription>, t: ArgType, n: int) -> int
    decreases n,
{
    if n <= 0 {
        0
    } else {
        count_type(descs, t, n - 1) + (if descs[n - 1].arg_type == t {
            1int
        } else {
            0int
        })
    }
}

/// The argument names among the descriptions are distinct.
pub open spec fn descs_distinct(descs: Seq<ArgDescription>) -> bool {
    forall|a: int, b: int| 0 <= a < b < descs.len() ==> descs[a].call_name@ != descs[b].call_name@
}

/// Checks an argument string against a command's argument descriptions and
/// converts each described argument to its declared type. Fails with the
/// first complaint, in description order: a described name that the input
/// lacks, or a value that does not read as its declared type. On success
/// the returned list holds exactly one converted value per description.
#[verifier::rlimit(100)]
pub fn parse(args_str: &str, args_description: &Vec<ArgDescription>) -> (r: Result<
    ArgsList,
    ParseError,
>)
    ensures
        ({
            let raw = parse_raw_spec(args_str@);
            let descs = args_description@;
            match r {
                Err(e) => first_parse_error(raw, descs) == Some(e),
                Ok(args) => {
                    &&& first_parse_error(raw, descs) is None
                    &&& args.wf()
                    &&& descs_distinct(descs) ==> {
                        &&& forall|j: int|
                            0 <= j < descs.len() ==> match (#[trigger] descs[j]).arg_type {
                                ArgType::U64 => assoc_lookup(args.u64s(), descs[j].call_name@)
                                    == u64_text(raw_lookup(raw, descs[j].call_name@)->Some_0),
                                ArgType::BOOL => assoc_lookup(args.bools(), descs[j].call_name@)
                                    == bool_text(raw_lookup(raw, descs[j].call_name@)->Some_0),
                                ArgType::STRING => assoc_lookup(args.strs(), descs[j].call_name@)
                                    == raw_lookup(raw, descs[j].call_name@),
                            }
                        &&& args.u64s().len() == count_type(
                            descs,
                            ArgType::U64,
                            descs.len() as int,
                        )
                        &&& args.bools().len() == count_type(
                            descs,
                            ArgType::BOOL,
                            descs.len() as int,
                        )
                        &&& args.strs().len() == count_type(
                            descs,
                            ArgType::STRING,
                            descs.len() as int,
                        )
                    }
                },
            }
        }),
{
    let ghost descs = args_description@;
    let mut args_list = ArgsList::new();
    let raw_args = parse_raw(args_str);
    let ghost raw = parse_raw_spec(args_str@);
    let mut j: usize = 0;
    proof {
        assert(descs.skip(0) =~= descs);
    }
    while j < args_description.len()
        invariant
            j <= descs.len(),
            descs == args_description@,
            raw == parse_raw_spec(args_str@),
            string_pairs_view(raw_args@) == raw,
            args_list.wf(),
            first_parse_error(raw, descs) == first_parse_error(raw, descs.skip(j as int)),
            forall|j2: int| 0 <= j2 < j ==> arg_error(raw, #[trigger] descs[j2]) is None,
            descs_distinct(descs) ==> (forall|j2: int|
                0 <= j2 < j ==> match (#[trigger] descs[j2]).arg_type {
                    ArgType::U64 => assoc_lookup(args_list.u64s(), descs[j2].call_name@)
                        == u64_text(raw_lookup(raw, descs[j2].call_name@)->Some_0),
                    ArgType::BOOL => assoc_lookup(args_list.bools(), descs[j2].call_name@)
                        == bool_text(raw_lookup(raw, descs[j2].call_name@)->Some_0),
                    ArgType::STRING => assoc_lookup(args_list.strs(), descs[j2].call_name@)
                        == raw_lookup(raw, descs[j2].call_name@),
                }),
            descs_distinct(descs) ==> (forall|name: Seq<char>|
                assoc_lookup(args_list.u64s(), name) is Some ==> exists|j2: int|
                    0 <= j2 < j && (#[trigger] descs[j2]).call_name@ == name),
            descs_distinct(descs) ==> (forall|name: Seq<char>|
                assoc_lookup(args_list.bools(), name) is Some ==> exists|j2: int|
                    0 <= j2 < j && (#[trigger] descs[j2]).call_name@ == name),
            descs_distinct(descs) ==> (forall|name: Seq<char>|
                assoc_lookup(args_list.strs(), name) is Some ==> exists|j2: int|
                    0 <= j2 < j && (#[trigger] descs[j2]).call_name@ == name),
            descs_distinct(descs) ==> args_list.u64s().len() == count_type(
                descs,
                ArgType::U64,
                j as int,
            ),
            descs_distinct(descs) ==> args_list.bools().len() == count_type(
                descs,
                ArgType::BOOL,
                j as int,
            ),
            descs_distinct(descs) ==> args_list.strs().len() == count_type(
                descs,
                ArgType::STRING,
                j as int,
            ),
        decreases descs.len() - j,
    {
        let desc = &args_description[j];
        proof {
            assert(descs.skip(j as int)[0] == descs[j as int]);
            assert(descs.skip(j as int).drop_first() =~= descs.skip(j as int + 1));
        }
        let ghost pre_args = args_list;
        let value_opt = raw_get(&raw_args, desc.call_name.as_str());
        match value_opt {
            None => {
                proof {
                    assert(arg_error(raw, descs[j as int]) == Some(ParseError::MissingArg));
                    assert(first_parse_error(raw, descs.skip(j as int)) == Some(
                        ParseError::MissingArg,
                    ));
                }
                return Err(ParseError::MissingArg);
            },
            Some(value_raw) => {
                match desc.arg_type {
                    ArgType::U64 => {
                        match parse_u64(value_raw.as_str()) {
                            Some(value) => {
                                args_list.put_u64(desc.call_name.as_str(), value);
                                proof {
                                    if descs_distinct(descs) && assoc_lookup(
                                        pre_args.u64s(),
                                        desc.call_name@,
                                    ) is Some {
                                        let j2 = choose|j2: int|
                                            0 <= j2 < j && (#[trigger] descs[j2]).call_name@
                                                == desc.call_name@;
                                        assert(descs[j2].call_name@ == descs[j as int].call_name@);
                                        assert(false);
                                    }
                                }
                            },
                            None => {
                                proof {
                                    assert(arg_error(raw, descs[j as int]) == Some(
                                        ParseError::InvalidU64,
                                    ));
                                    assert(first_parse_error(raw, descs.skip(j as int)) == Some(
                                        ParseError::InvalidU64,
                                    ));
                                }
                                return Err(ParseError::InvalidU64);
                            },
                        }
                    },
                    ArgType::BOOL => {
                        let flag: bool;
                        if str_eq(value_raw.as_str(), "y") {
                            flag = true;
                        } else if str_eq(value_raw.as_str(), "n") {
                            flag = false;
                        } else {
                            proof {
                                assert(arg_error(raw, descs[j as int]) == Some(
                                    ParseError::InvalidBool,
                                ));
                                assert(first_parse_error(raw, descs.skip(j as int)) == Some(
                                    ParseError::InvalidBool,
                                ));
                            }
                            return Err(ParseError::InvalidBool);
                        }
                        args_list.put_bool(desc.call_name.as_str(), flag);
                        proof {
                            if descs_distinct(descs) && assoc_lookup(
                                pre_args.bools(),
                                desc.call_name@,
                            ) is Some {
                                let j2 = choose|j2: int|
                                    0 <= j2 < j && (#[trigger] descs[j2]).call_name@
                                        == desc.call_name@;
                                assert(descs[j2].call_name@ == descs[j as int].call_name@);
                                assert(false);
                            }
                        }
                    },
                    ArgType::STRING => {
                        args_list.put_string(desc.call_name.as_str(), value_raw);
                        proof {
                            if descs_distinct(descs) && assoc_lookup(
                                pre_args.strs(),
                                desc.call_name@,
                            ) is Some {
                                let j2 = choose|j2: int|
                                    0 <= j2 < j && (#[trigger] descs[j2]).call_name@
                                        == desc.call_name@;
                                assert(descs[j2].call_name@ == descs[j as int].call_name@);
                                assert(false);
                            }
                        }
                    },
                }
            },
        }
        j = j + 1;
    }
    proof {
        assert(descs.skip(descs.len() as int) =~= Seq::<ArgDescription>::empty());
    }
    Ok(args_list)
}

/// Where a command line splits into the command name and the argument
/// string: at the first space, or at the end when there is none.
pub open spec fn split_line_spec(s: Seq<char>) -> (Seq<char>, Seq<char>) {
    match spec_find_char(s, ' ') {
        Some(i) => (s.subrange(0, i), s.subrange(i + 1, s.len() as int)),
        None => (s, Seq::empty()),
    }
}

/// Splits a command line into the command name and the argument string.
pub fn split_line(line: &str) -> (r: (String, String))
    ensures
        (r.0@, r.1@) == split_line_spec(line@),
{
    let len = line.unicode_len();
    let found = find_char(line, ' ');
    match found {
        Some(i) => {
            let name = substring_copy(line, 0, i);
            let rest = substring_copy(line, i + 1, len);
            (name, rest)
        },
        None => {
            let name = substring_copy(line, 0, len);
            proof {
                assert(line@.subrange(0, len as int) =~= line@);
            }
            (name, String::new())
        },
    }
}

/// The outcome of handling one operator command line.
#[derive(Debug, PartialEq, Eq, Structural, Clone, Copy)]
pub enum CliError {
    /// The line names a command that was never registered.
    UnknownCommand,
    /// The arguments do not satisfy the command's descriptions.
    BadArgs(ParseError),
}

/// Routes one operator line against a command registry: splits the line at
/// its first space into the command name and the argument string, checks
/// and converts the arguments against the command's descriptions, and runs
/// the command's handler on them. The handler runs exactly when the command
/// exists and its arguments check out.
pub fn dispatch_line<C: CmdHandler>(cmd_manager: &CmdManager<C>, input_line: &str) -> (r: Result<
    (),
    CliError,
>)
    ensures
        ({
            let parts = split_line_spec(input_line@);
            match r {
                Err(CliError::UnknownCommand) => assoc_lookup(
                    cmd_manager.cmds(),
                    parts.0,
                ) is None,
                Err(CliError::BadArgs(e)) => assoc_lookup(cmd_manager.cmds(), parts.0)
                    matches Some(w) && first_parse_error(
                    parse_raw_spec(parts.1),
                    w.description.args@,
                ) == Some(e),
                Ok(_) => assoc_lookup(cmd_manager.cmds(), parts.0) matches Some(w)
                    && first_parse_error(parse_raw_spec(parts.1), w.description.args@) is None,
            }
        }),
{
    let (cmd_name, args_str) = split_line(input_line);
    let desc = match cmd_manager.get_command_description(cmd_name.as_str()) {
        Ok(d) => d,
        Err(_) => {
            return Err(CliError::UnknownCommand);
        },
    };
    let args = match parse(args_str.as_str(), &desc.args) {
        Ok(a) => a,
        Err(e) => {
            return Err(CliError::BadArgs(e));
        },
    };
    match cmd_manager.handle(cmd_name.as_str(), &args) {
        Ok(_) => Ok(()),
        Err(_) => {
            proof {
                assert(false);
            }
            Err(CliError::UnknownCommand)
        },
    }
}

/// A sink for operator input lines, one call per line, fed by a read loop.
pub trait InputHandler {
    fn handle(&self, input_line: &str);
}

/// Connects operator input to a borrowed command registry.
pub struct CmdManagerCliAdapter<'a, C> {
    cmd_manager: &'a CmdManager<C>,
}

impl<'a, C> CmdManagerCliAdapter<'a, C> {
    /// The registry this adapter routes to.
    pub closed spec fn manager(&self) -> CmdManager<C> {
        *self.cmd_manager
    }

    pub fn new(cmd_manager: &'a CmdManager<C>) -> (r: CmdManagerCliAdapter<'a, C>)
        ensures
            r.manager() == *cmd_manager,
    {
        CmdManagerCliAdapter { cmd_manager }
    }
}

impl<'a, C: CmdHandler> CmdManagerCliAdapter<'a, C> {
    /// Handles one line of operator input; see [`dispatch_line`]. The line
    /// comes without its trailing newline.
    pub fn handle_line(&self, input_line: &str) -> (r: Result<(), CliError>)
        ensures
            ({
                let parts = split_line_spec(input_line@);
                match r {
                    Err(CliError::UnknownCommand) => assoc_lookup(
                        self.manager().cmds(),
                        parts.0,
                    ) is None,
                    Err(CliError::BadArgs(e)) => assoc_lookup(self.manager().cmds(), parts.0)
                        matches Some(w) && first_parse_error(
                        parse_raw_spec(parts.1),
                        w.description.args@,
                    ) == Some(e),
                    Ok(_) => assoc_lookup(self.manager().cmds(), parts.0) matches Some(w)
                        && first_parse_error(
                        parse_raw_spec(parts.1),
                        w.description.args@,
                    ) is None,
                }
            }),
    {
        dispatch_line(self.cmd_manager, input_line)
    }
}

/// Connects operator input to an owned command registry, as the input
/// handler a read loop drives.
pub struct CmdManagerAdapter<C> {
    cmd_manager: CmdManager<C>,
}

impl<C> CmdManagerAdapter<C> {
    /// The registry this adapter routes to.
    pub closed spec fn manager(&self) -> CmdManager<C> {
        self.cmd_manager
    }

    pub fn new(cmd_manager: CmdManager<C>) -> (r: CmdManagerAdapter<C>)
        ensures
            r.manager() == cmd_manager,
    {
        CmdManagerAdapter { cmd_manager }
    }

    /// Hands the registry back.
    pub fn into_inner(self) -> (r: CmdManager<C>)
        ensures
            r == self.manager(),
    {
        self.cmd_manager
    }
}

impl<C: CmdHandler> CmdManagerAdapter<C> {
    /// Handles one line of operator input; see [`dispatch_line`]. A failure
    /// is reported to the caller and the command is not invoked.
    pub fn handle_line(&self, input_line: &str) -> (r: Result<(), CliError>)
        ensures
            ({
                let parts = split_line_spec(input_line@);
                match r {
                    Err(CliError::UnknownCommand) => assoc_lookup(
                        self.manager().cmds(),
                        parts.0,
                    ) is None,
                    Err(CliError::BadArgs(e)) => assoc_lookup(self.manager().cmds(), parts.0)
                        matches Some(w) && first_parse_error(
                        parse_raw_spec(parts.1),
                        w.description.args@,
                    ) == Some(e),
                    Ok(_) => assoc_lookup(self.manager().cmds(), parts.0) matches Some(w)
                        && first_parse_error(
                        parse_raw_spec(parts.1),
                        w.description.args@,
                    ) is None,
                }
            }),
    {
        dispatch_line(&self.cmd_manager, input_line)
    }
}

impl<C: CmdHandler> InputHandler for CmdManagerAdapter<C> {
    fn handle(&self, input_line: &str) {
        let _outcome = dispatch_line(&self.cmd_manager, input_line);
    }
}

} // verus!
