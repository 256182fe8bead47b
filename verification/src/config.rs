//! Translating command-line words into engine commands. One form serves the
//! one-shot invocation (`kvstore <cmd> ...` after the program name), the
//! other the words of one interactive line. Both only translate; the engine
//! never re-checks argument arity.
use vstd::prelude::*;
use vstd::string::*;
use crate::command::Command;
use crate::digits::{
    all_digits, digits_val, exec_digit_val, exec_is_digit, lemma_digits_val_take,
};
use crate::model::CmdModel;

verus! {

/// A parsed invocation.
pub struct Config {
    pub command: Command,
}

/// The characters `str::trim` strips: those with the Unicode White_Space
/// property.
pub open spec fn is_space(c: char) -> bool {
    let u = c as u32;
    (0x9 <= u && u <= 0xD) || u == 0x20 || u == 0x85 || u == 0xA0 || u == 0x1680 || (0x2000 <= u
        && u <= 0x200A) || u == 0x2028 || u == 0x2029 || u == 0x202F || u == 0x205F || u == 0x3000
}

fn exec_is_space(c: char) -> (r: bool)
    ensures
        r == is_space(c),
{
    let u = c as u32;
    (0x9 <= u && u <= 0xD) || u == 0x20 || u == 0x85 || u == 0xA0 || u == 0x1680 || (0x2000 <= u
        && u <= 0x200A) || u == 0x2028 || u == 0x2029 || u == 0x202F || u == 0x205F || u == 0x3000
}

pub open spec fn trim_start(s: Seq<char>) -> Seq<char>
    decreases s.len(),
{
    if s.len() > 0 && is_space(s[0]) {
        trim_start(s.drop_first())
    } else {
        s
    }
}

pub open spec fn trim_end(s: Seq<char>) -> Seq<char>
    decreases s.len(),
{
    if s.len() > 0 && is_space(s.last()) {
        trim_end(s.drop_last())
    } else {
        s
    }
}

/// What `str::trim` leaves of a string.
pub open spec fn trim(s: Seq<char>) -> Seq<char> {
    trim_end(trim_start(s))
}

/// What `str::parse::<u64>` accepts of a trimmed string: an optional plus
/// sign, then at least one decimal digit, denoting a value that fits 64
/// bits; anything else is rejected.
pub open spec fn spec_parse_u64(s: Seq<char>) -> Option<u64> {
    let t = trim(s);
    let d = if t.len() > 0 && t[0] == '+' {
        t.drop_first()
    } else {
        t
    };
    if d.len() >= 1 && all_digits(d) && digits_val(d) <= u64::MAX {
        Some(digits_val(d) as u64)
    } else {
        None
    }
}

/// Trims whitespace and parses a decimal number, exactly as the standard
/// parser does after a trim.
#[verifier::loop_isolation(false)]
pub fn parse_u64_trimmed(s: &str) -> (r: Option<u64>)
    ensures
        r == spec_parse_u64(s@),
{
    let v = crate::codec::str_to_chars(s);
    let n = v.len();
    proof {
        assert(v@.skip(0) =~= v@);
    }
    let mut lo: usize = 0;
    while lo < n && exec_is_space(v[lo])
        invariant
            lo <= n,
            trim_start(v@) == trim_start(v@.skip(lo as int)),
        decreases n - lo,
    {
        proof {
            assert(v@.skip(lo as int)[0] == v@[lo as int]);
            assert(v@.skip(lo as int).drop_first() =~= v@.skip(lo as int + 1));
        }
        lo = lo + 1;
    }
    proof {
        if lo < n {
            assert(v@.skip(lo as int)[0] == v@[lo as int]);
        }
        assert(trim_start(v@) == v@.skip(lo as int));
        assert(v@.skip(lo as int) =~= v@.subrange(lo as int, n as int));
    }
    let mut hi: usize = n;
    while hi > lo && exec_is_space(v[hi - 1])
        invariant
            lo <= hi <= n,
            trim_end(v@.skip(lo as int)) == trim_end(v@.subrange(lo as int, hi as int)),
        decreases hi,
    {
        proof {
            assert(v@.subrange(lo as int, hi as int).last() == v@[hi as int - 1]);
            assert(v@.subrange(lo as int, hi as int).drop_last() =~= v@.subrange(
                lo as int,
                hi as int - 1,
            ));
        }
        hi = hi - 1;
    }
    proof {
        if hi > lo {
            assert(v@.subrange(lo as int, hi as int).last() == v@[hi as int - 1]);
        }
        assert(trim(v@) == v@.subrange(lo as int, hi as int));
    }
    let mut p = lo;
    if hi > lo && v[lo] == '+' {
        p = lo + 1;
        proof {
            assert(v@.subrange(lo as int, hi as int)[0] == v@[lo as int]);
            assert(v@.subrange(lo as int, hi as int).drop_first() =~= v@.subrange(
                lo as int + 1,
                hi as int,
            ));
        }
    } else {
        proof {
            if hi > lo {
                assert(v@.subrange(lo as int, hi as int)[0] == v@[lo as int]);
            }
        }
    }
    let ghost d = v@.subrange(p as int, hi as int);
    if hi == p {
        return None;
    }
    let mut j = p;
    let mut acc: u128 = 0;
    while j < hi
        invariant
            p <= j <= hi,
            acc <= u64::MAX as u128,
            all_digits(v@.subrange(p as int, j as int)),
            acc as nat == digits_val(v@.subrange(p as int, j as int)),
        decreases hi - j,
    {
        let c = v[j];
        proof {
            assert(d[j - p] == v@[j as int]);
        }
        if !exec_is_digit(c) {
            return None;
        }
        let dg = exec_digit_val(c);
        acc = acc * 10 + dg as u128;
        proof {
            assert(v@.subrange(p as int, j as int + 1).drop_last() =~= v@.subrange(
                p as int,
                j as int,
            ));
            assert(v@.subrange(p as int, j as int + 1).last() == v@[j as int]);
        }
        j = j + 1;
        if acc > u64::MAX as u128 {
            proof {
                if all_digits(d) {
                    lemma_digits_val_take(d, j - p);
                    assert(d.take(j - p) =~= v@.subrange(p as int, j as int));
                }
            }
            return None;
        }
    }
    proof {
        assert(v@.subrange(p as int, j as int) =~= d);
    }
    Some(acc as u64)
}

/// Whether two strings hold the same characters.
#[verifier::loop_isolation(false)]
fn str_is(a: &str, b: &str) -> (r: bool)
    ensures
        r == (a@ == b@),
{
    let n = a.unicode_len();
    if n != b.unicode_len() {
        proof {
            if a@ == b@ {
                assert(a@.len() == b@.len());
            }
        }
        return false;
    }
    let mut i: usize = 0;
    while i < n
        invariant
            i <= n,
            forall|q: int| 0 <= q < i ==> a@[q] == b@[q],
        decreases n - i,
    {
        if a.get_char(i) != b.get_char(i) {
            proof {
                if a@ == b@ {
                    assert(a@[i as int] == b@[i as int]);
                }
            }
            return false;
        }
        i = i + 1;
    }
    proof {
        assert(a@ =~= b@);
    }
    true
}

pub open spec fn msg_structure() -> Seq<char> {
    "Invalid command structure"@
}

pub open spec fn msg_set_usage() -> Seq<char> {
    "Invalid command. Use kvstore set <key> <value>"@
}

pub open spec fn msg_key_usage(w: Seq<char>) -> Seq<char> {
    "Invalid command. Use kvstore "@ + w + " <key>"@
}

pub open spec fn msg_touch_usage() -> Seq<char> {
    "Invalid command. Use kvstore touch <key> <ttl>"@
}

pub open spec fn msg_invalid() -> Seq<char> {
    "Invalid command provided"@
}

pub open spec fn msg_set_usage_loop() -> Seq<char> {
    "Invalid command. Use set <key> <value> <ttl, optional>"@
}

pub open spec fn msg_key_usage_loop(w: Seq<char>) -> Seq<char> {
    "Invalid command. Use "@ + w + " <key>"@
}

pub open spec fn msg_touch_usage_loop() -> Seq<char> {
    "Invalid command. Use touch <key> <ttl>"@
}

/// The command the one-shot form denotes, or the message to print: the
/// program name comes first, then the word `kvstore`, the command word, and
/// its arguments. A set's value is the argument's UTF-8 bytes; its optional
/// TTL is taken only if it parses.
pub open spec fn spec_build(args: Seq<String>) -> Result<CmdModel, Seq<char>> {
    if args.len() < 4 {
        Err(msg_structure())
    } else if args[1]@ != "kvstore"@ {
        Err(msg_structure())
    } else if args[2]@ == "set"@ && args.len() < 5 {
        Err(msg_set_usage())
    } else if (args[2]@ == "get"@ || args[2]@ == "delete"@) && args.len() != 4 {
        Err(msg_key_usage(args[2]@))
    } else if args[2]@ == "set"@ {
        Ok(
            CmdModel::Put {
                key: args[3]@,
                value: vstd::utf8::encode_utf8(args[4]@),
                ttl: if args.len() >= 6 {
                    spec_parse_u64(args[5]@)
                } else {
                    None
                },
            },
        )
    } else if args[2]@ == "get"@ {
        Ok(CmdModel::Get { key: args[3]@ })
    } else if args[2]@ == "delete"@ {
        Ok(CmdModel::Delete { key: args[3]@ })
    } else if args[2]@ == "has"@ || args[2]@ == "exists"@ {
        Ok(CmdModel::Has { key: args[3]@ })
    } else if args[2]@ == "touch"@ {
        if args.len() < 5 {
            Err(msg_touch_usage())
        } else {
            match spec_parse_u64(args[4]@) {
                Some(t) => Ok(CmdModel::Touch { key: args[3]@, ttl: t }),
                None => Err(msg_touch_usage()),
            }
        }
    } else if args[2]@ == "persist"@ {
        Ok(CmdModel::Persist { key: args[3]@ })
    } else if args[2]@ == "ttl"@ {
        Ok(CmdModel::Ttl { key: args[3]@ })
    } else {
        Err(msg_invalid())
    }
}

/// The command one interactive line denotes, or the message to print; the
/// words start with the command word itself. The word `exit` never reaches
/// this parser: the read loop acts on it directly.
pub open spec fn spec_build_loop(args: Seq<String>) -> Result<CmdModel, Seq<char>> {
    if args.len() < 1 {
        Err(msg_invalid())
    } else if args[0]@ == "set"@ && args.len() < 3 {
        Err(msg_set_usage_loop())
    } else if (args[0]@ == "get"@ || args[0]@ == "has"@ || args[0]@ == "delete"@) && args.len()
        != 2 {
        Err(msg_key_usage_loop(args[0]@))
    } else if args[0]@ == "set"@ {
        Ok(
            CmdModel::Put {
                key: args[1]@,
                value: vstd::utf8::encode_utf8(args[2]@),
                ttl: if args.len() >= 4 {
                    spec_parse_u64(args[3]@)
                } else {
                    None
                },
            },
        )
    } else if args[0]@ == "get"@ {
        Ok(CmdModel::Get { key: args[1]@ })
    } else if args[0]@ == "delete"@ {
        Ok(CmdModel::Delete { key: args[1]@ })
    } else if args[0]@ == "exists"@ || args[0]@ == "has"@ {
        if args.len() < 2 {
            Err(msg_invalid())
        } else {
            Ok(CmdModel::Has { key: args[1]@ })
        }
    } else if args[0]@ == "touch"@ {
        if args.len() < 3 {
            Err(msg_touch_usage_loop())
        } else {
            match spec_parse_u64(args[2]@) {
                Some(t) => Ok(CmdModel::Touch { key: args[1]@, ttl: t }),
                None => Err(msg_touch_usage_loop()),
            }
        }
    } else if args[0]@ == "persist"@ {
        if args.len() < 2 {
            Err(msg_invalid())
        } else {
            Ok(CmdModel::Persist { key: args[1]@ })
        }
    } else if args[0]@ == "ttl"@ {
        if args.len() < 2 {
            Err(msg_invalid())
        } else {
            Ok(CmdModel::Ttl { key: args[1]@ })
        }
    } else {
        Err(msg_invalid())
    }
}

impl Config {
    /// Parses a one-shot invocation's arguments.
    pub fn build(args: &[String]) -> (r: Result<Config, String>)
        ensures
            match r {
                Ok(config) => spec_build(args@) == Ok::<CmdModel, Seq<char>>(config.command@),
                Err(e) => spec_build(args@) == Err::<CmdModel, Seq<char>>(e@),
            },
    {
        if args.len() < 4 {
            return Err(String::from_str("Invalid command structure"));
        }
        if !str_is(args[1].as_str(), "kvstore") {
            return Err(String::from_str("Invalid command structure"));
        }
        let is_set = str_is(args[2].as_str(), "set");
        if is_set && args.len() < 5 {
            return Err(String::from_str("Invalid command. Use kvstore set <key> <value>"));
        }
        let is_get = str_is(args[2].as_str(), "get");
        let is_delete = str_is(args[2].as_str(), "delete");
        if (is_get || is_delete) && args.len() != 4 {
            let mut m = String::from_str("Invalid command. Use kvstore ");
            m.append(args[2].as_str());
            m.append(" <key>");
            return Err(m);
        }
        if is_set {
            let ttl: Option<u64> = if args.len() >= 6 {
                parse_u64_trimmed(args[5].as_str())
            } else {
                None
            };
            let value = args[4].as_str().as_bytes_vec();
            return Ok(Config { command: Command::Put { key: args[3].clone(), value, ttl } });
        }
        if is_get {
            return Ok(Config { command: Command::Get { key: args[3].clone() } });
        }
        if is_delete {
            return Ok(Config { command: Command::Delete { key: args[3].clone() } });
        }
        if str_is(args[2].as_str(), "has") || str_is(args[2].as_str(), "exists") {
            return Ok(Config { command: Command::Has { key: args[3].clone() } });
        }
        if str_is(args[2].as_str(), "touch") {
            if args.len() < 5 {
                return Err(String::from_str("Invalid command. Use kvstore touch <key> <ttl>"));
            }
            match parse_u64_trimmed(args[4].as_str()) {
                Some(t) => {
                    return Ok(Config { command: Command::Touch { key: args[3].clone(), ttl: t } });
                },
                None => {
                    return Err(String::from_str("Invalid command. Use kvstore touch <key> <ttl>"));
                },
            }
        }
        if str_is(args[2].as_str(), "persist") {
            return Ok(Config { command: Command::Persist { key: args[3].clone() } });
        }
        if str_is(args[2].as_str(), "ttl") {
            return Ok(Config { command: Command::Ttl { key: args[3].clone() } });
        }
        Err(String::from_str("Invalid command provided"))
    }

    /// Parses the words of one interactive line.
    pub fn build_with_loop(args: &Vec<String>) -> (r: Result<Config, String>)
        ensures
            match r {
                Ok(config) => spec_build_loop(args@) == Ok::<CmdModel, Seq<char>>(config.command@),
                Err(e) => spec_build_loop(args@) == Err::<CmdModel, Seq<char>>(e@),
            },
    {
        if args.len() < 1 {
            return Err(String::from_str("Invalid command provided"));
        }
        let is_set = str_is(args[0].as_str(), "set");
        if is_set && args.len() < 3 {
            return Err(
                String::from_str("Invalid command. Use set <key> <value> <ttl, optional>"),
            );
        }
        let is_get = str_is(args[0].as_str(), "get");
        let is_has = str_is(args[0].as_str(), "has");
        let is_delete = str_is(args[0].as_str(), "delete");
        if (is_get || is_has || is_delete) && args.len() != 2 {
            let mut m = String::from_str("Invalid command. Use ");
            m.append(args[0].as_str());
            m.append(" <key>");
            return Err(m);
        }
        if is_set {
            let ttl: Option<u64> = if args.len() >= 4 {
                parse_u64_trimmed(args[3].as_str())
            } else {
                None
            };
            let value = args[2].as_str().as_bytes_vec();
            return Ok(Config { command: Command::Put { key: args[1].clone(), value, ttl } });
        }
        if is_get {
            return Ok(Config { command: Command::Get { key: args[1].clone() } });
        }
        if is_delete {
            return Ok(Config { command: Command::Delete { key: args[1].clone() } });
        }
        if str_is(args[0].as_str(), "exists") || is_has {
            if args.len() < 2 {
                return Err(String::from_str("Invalid command provided"));
            }
            return Ok(Config { command: Command::Has { key: args[1].clone() } });
        }
        if str_is(args[0].as_str(), "touch") {
            if args.len() < 3 {
                return Err(String::from_str("Invalid command. Use touch <key> <ttl>"));
            }
            match parse_u64_trimmed(args[2].as_str()) {
                Some(t) => {
                    return Ok(Config { command: Command::Touch { key: args[1].clone(), ttl: t } });
                },
                None => {
                    return Err(String::from_str("Invalid command. Use touch <key> <ttl>"));
                },
            }
        }
        if str_is(args[0].as_str(), "persist") {
            if args.len() < 2 {
                return Err(String::from_str("Invalid command provided"));
            }
            return Ok(Config { command: Command::Persist { key: args[1].clone() } });
        }
        if str_is(args[0].as_str(), "ttl") {
            if args.len() < 2 {
                return Err(String::from_str("Invalid command provided"));
            }
            return Ok(Config { command: Command::Ttl { key: args[1].clone() } });
        }
        Err(String::from_str("Invalid command provided"))
    }
}

} // verus!
