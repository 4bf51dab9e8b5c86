//! The server's command line: `--flag value` pairs naming the data files, the
//! port and the CORS origin; `--help`/`-h` asks for the usage text.

use vstd::prelude::*;
use crate::engine::EngineConfig;
use crate::regex::opt_view;
use crate::text::{append_chars, chars_eq, chars_to_string, lit, string_chars};
use crate::xml::string_views;

verus! {

/// What the command line sets.
pub struct CliArgs {
    pub help: bool,
    pub port: u16,
    pub allow_origin: Option<String>,
    pub data_dir: Option<String>,
    pub dict: Option<String>,
    pub disambiguation: Option<String>,
    pub grammar: Option<String>,
    pub srx: Option<String>,
    pub synth_dict: Option<String>,
    pub synth_tags: Option<String>,
    pub spell_dict: Option<String>,
    pub spell_ignore: Vec<String>,
    pub multiwords: Option<String>,
    pub prohibit: Option<String>,
}

pub struct CliV {
    pub help: bool,
    pub port: u16,
    pub allow_origin: Option<Seq<char>>,
    pub data_dir: Option<Seq<char>>,
    pub dict: Option<Seq<char>>,
    pub disambiguation: Option<Seq<char>>,
    pub grammar: Option<Seq<char>>,
    pub srx: Option<Seq<char>>,
    pub synth_dict: Option<Seq<char>>,
    pub synth_tags: Option<Seq<char>>,
    pub spell_dict: Option<Seq<char>>,
    pub spell_ignore: Seq<Seq<char>>,
    pub multiwords: Option<Seq<char>>,
    pub prohibit: Option<Seq<char>>,
}

pub open spec fn cli_view(c: CliArgs) -> CliV {
    CliV {
        help: c.help,
        port: c.port,
        allow_origin: opt_view(c.allow_origin),
        data_dir: opt_view(c.data_dir),
        dict: opt_view(c.dict),
        disambiguation: opt_view(c.disambiguation),
        grammar: opt_view(c.grammar),
        srx: opt_view(c.srx),
        synth_dict: opt_view(c.synth_dict),
        synth_tags: opt_view(c.synth_tags),
        spell_dict: opt_view(c.spell_dict),
        spell_ignore: string_views(c.spell_ignore@),
        multiwords: opt_view(c.multiwords),
        prohibit: opt_view(c.prohibit),
    }
}

/// Nothing set: port 8010.
pub open spec fn cli_default() -> CliV {
    CliV {
        help: false,
        port: 8010,
        allow_origin: None,
        data_dir: None,
        dict: None,
        disambiguation: None,
        grammar: None,
        srx: None,
        synth_dict: None,
        synth_tags: None,
        spell_dict: None,
        spell_ignore: Seq::empty(),
        multiwords: None,
        prohibit: None,
    }
}

/// The value of the decimal digits `s` (no sign), or none past `u16::MAX`.
pub open spec fn digits_u16(s: Seq<char>) -> Option<u16>
    decreases s.len(),
{
    if s.len() == 0 {
        Some(0)
    } else {
        match digits_u16(s.drop_last()) {
            Some(v) => if '0' <= s.last() <= '9' && v * 10 + (s.last() as u32 - '0' as u32) <= u16::MAX {
                Some((v * 10 + (s.last() as u32 - '0' as u32)) as u16)
            } else {
                None
            },
            None => None,
        }
    }
}

/// `u16::from_str`: an optional `+`, then at least one digit, in range.
pub open spec fn parse_u16_spec(s: Seq<char>) -> Option<u16> {
    let body = if s.len() > 0 && s[0] == '+' {
        s.drop_first()
    } else {
        s
    };
    if body.len() == 0 {
        None
    } else {
        digits_u16(body)
    }
}

/// The flags that take a value.
pub open spec fn takes_value(f: Seq<char>) -> bool {
    f == "--port"@ || f == "--allow-origin"@ || f == "--data-dir"@ || f == "--dict"@ || f
        == "--disambiguation"@ || f == "--grammar"@ || f == "--srx"@ || f == "--synth-dict"@ || f
        == "--synth-tags"@ || f == "--spell-dict"@ || f == "--spell-ignore"@ || f == "--multiwords"@
        || f == "--prohibit"@
}

/// Setting flag `f` to `v`.
pub open spec fn cli_set(a: CliV, f: Seq<char>, v: Seq<char>) -> Result<CliV, Seq<char>> {
    if f == "--port"@ {
        match parse_u16_spec(v) {
            Some(p) => Ok(CliV { port: p, ..a }),
            None => Err("invalid --port"@),
        }
    } else if f == "--allow-origin"@ {
        Ok(CliV { allow_origin: Some(v), ..a })
    } else if f == "--data-dir"@ {
        Ok(CliV { data_dir: Some(v), ..a })
    } else if f == "--dict"@ {
        Ok(CliV { dict: Some(v), ..a })
    } else if f == "--disambiguation"@ {
        Ok(CliV { disambiguation: Some(v), ..a })
    } else if f == "--grammar"@ {
        Ok(CliV { grammar: Some(v), ..a })
    } else if f == "--srx"@ {
        Ok(CliV { srx: Some(v), ..a })
    } else if f == "--synth-dict"@ {
        Ok(CliV { synth_dict: Some(v), ..a })
    } else if f == "--synth-tags"@ {
        Ok(CliV { synth_tags: Some(v), ..a })
    } else if f == "--spell-dict"@ {
        Ok(CliV { spell_dict: Some(v), ..a })
    } else if f == "--spell-ignore"@ {
        Ok(CliV { spell_ignore: a.spell_ignore.push(v), ..a })
    } else if f == "--multiwords"@ {
        Ok(CliV { multiwords: Some(v), ..a })
    } else {
        Ok(CliV { prohibit: Some(v), ..a })
    }
}

/// Reading the arguments from position `i` on: `--help`/`-h` stops the
/// reading; each other flag takes the next argument as its value.
pub open spec fn cli_run(argv: Seq<Seq<char>>, i: int, a: CliV) -> Result<CliV, Seq<char>>
    decreases argv.len() - i,
{
    if i < 0 || i >= argv.len() {
        Ok(a)
    } else {
        let f = argv[i];
        if f == "--help"@ || f == "-h"@ {
            Ok(CliV { help: true, ..a })
        } else if takes_value(f) {
            if i + 1 >= argv.len() {
                Err(f + " needs a value"@)
            } else {
                match cli_set(a, f, argv[i + 1]) {
                    Ok(a2) => cli_run(argv, i + 2, a2),
                    Err(e) => Err(e),
                }
            }
        } else {
            Err("unknown argument: "@ + f)
        }
    }
}

proof fn lemma_digits_none(b: Seq<char>, k: int)
    requires
        0 <= k <= b.len(),
        digits_u16(b.take(k)) is None,
    ensures
        digits_u16(b) is None,
    decreases b.len() - k,
{
    if k < b.len() {
        assert(b.take(k + 1).drop_last() =~= b.take(k));
        lemma_digits_none(b, k + 1);
    } else {
        assert(b.take(k) =~= b);
    }
}

/// `u16::from_str` on characters.
pub fn parse_u16(s: &[char]) -> (r: Option<u16>)
    ensures
        r == parse_u16_spec(s@),
{
    let start: usize = if s.len() > 0 && s[0] == '+' {
        1
    } else {
        0
    };
    let ghost body = if s@.len() > 0 && s@[0] == '+' {
        s@.drop_first()
    } else {
        s@
    };
    assert(body =~= s@.skip(start as int));
    if start >= s.len() {
        return None;
    }
    let mut v: u32 = 0;
    let mut i = start;
    assert(s@.subrange(start as int, i as int) =~= Seq::<char>::empty());
    while i < s.len()
        invariant
            start <= i <= s@.len(),
            body == s@.skip(start as int),
            body.len() > 0,
            parse_u16_spec(s@) == digits_u16(body),
            digits_u16(s@.subrange(start as int, i as int)) == Some(v as u16),
            v <= u16::MAX,
        decreases s.len() - i,
    {
        let c = s[i];
        let ghost pre = s@.subrange(start as int, i as int);
        assert(s@.subrange(start as int, i + 1).drop_last() =~= pre);
        assert(s@.subrange(start as int, i + 1).last() == c);
        if !('0' <= c && c <= '9') {
            proof {
                assert(digits_u16(s@.subrange(start as int, i + 1)) is None);
                assert(body.take(i + 1 - start) =~= s@.subrange(start as int, i + 1));
                lemma_digits_none(body, i + 1 - start);
                assert(digits_u16(body) is None);
                assert(body.len() > 0);
            }
            return None;
        }
        let d = (c as u32) - ('0' as u32);
        if v * 10 + d > 65535 {
            proof {
                assert(digits_u16(s@.subrange(start as int, i + 1)) is None);
                assert(body.take(i + 1 - start) =~= s@.subrange(start as int, i + 1));
                lemma_digits_none(body, i + 1 - start);
                assert(digits_u16(body) is None);
                assert(body.len() > 0);
            }
            return None;
        }
        v = v * 10 + d;
        i += 1;
    }
    assert(s@.subrange(start as int, i as int) =~= body);
    Some(v as u16)
}

fn dup(s: &String) -> (r: String)
    ensures
        r@ == s@,
{
    s.clone()
}

/// Reads the command line (without the program name).
pub fn parse_argv(argv: &[String]) -> (r: Result<CliArgs, String>)
    ensures
        match r {
            Ok(c) => cli_run(string_views(argv@), 0, cli_default()) == Ok::<CliV, Seq<char>>(cli_view(c)),
            Err(e) => cli_run(string_views(argv@), 0, cli_default()) == Err::<CliV, Seq<char>>(e@),
        },
{
    let ghost av = string_views(argv@);
    let mut a = CliArgs {
        help: false,
        port: 8010,
        allow_origin: None,
        data_dir: None,
        dict: None,
        disambiguation: None,
        grammar: None,
        srx: None,
        synth_dict: None,
        synth_tags: None,
        spell_dict: None,
        spell_ignore: Vec::new(),
        multiwords: None,
        prohibit: None,
    };
    assert(cli_view(a) =~= cli_default()) by {
        assert(string_views(a.spell_ignore@) =~= Seq::<Seq<char>>::empty());
    }
    let mut i: usize = 0;
    while i < argv.len()
        invariant
            i <= argv@.len(),
            av == string_views(argv@),
            cli_run(av, i as int, cli_view(a)) == cli_run(av, 0, cli_default()),
        decreases argv.len() - i,
    {
        let f = string_chars(&argv[i]);
        assert(av[i as int] == f@);
        if chars_eq(&f, &lit("--help")) || chars_eq(&f, &lit("-h")) {
            a.help = true;
            return Ok(a);
        }
        let known = chars_eq(&f, &lit("--port")) || chars_eq(&f, &lit("--allow-origin"))
            || chars_eq(&f, &lit("--data-dir")) || chars_eq(&f, &lit("--dict")) || chars_eq(
            &f,
            &lit("--disambiguation"),
        ) || chars_eq(&f, &lit("--grammar")) || chars_eq(&f, &lit("--srx")) || chars_eq(
            &f,
            &lit("--synth-dict"),
        ) || chars_eq(&f, &lit("--synth-tags")) || chars_eq(&f, &lit("--spell-dict")) || chars_eq(
            &f,
            &lit("--spell-ignore"),
        ) || chars_eq(&f, &lit("--multiwords")) || chars_eq(&f, &lit("--prohibit"));
        if !known {
            let mut m = lit("unknown argument: ");
            append_chars(&mut m, &f);
            return Err(chars_to_string(&m));
        }
        if i + 1 >= argv.len() {
            let mut m = f;
            append_chars(&mut m, &lit(" needs a value"));
            return Err(chars_to_string(&m));
        }
        let v = &argv[i + 1];
        assert(av[i + 1] == v@);
        let ghost before = cli_view(a);
        if chars_eq(&f, &lit("--port")) {
            match parse_u16(&string_chars(v)) {
                Some(p) => {
                    a.port = p;
                },
                None => {
                    return Err(chars_to_string(&lit("invalid --port")));
                },
            }
        } else if chars_eq(&f, &lit("--allow-origin")) {
            a.allow_origin = Some(dup(v));
        } else if chars_eq(&f, &lit("--data-dir")) {
            a.data_dir = Some(dup(v));
        } else if chars_eq(&f, &lit("--dict")) {
            a.dict = Some(dup(v));
        } else if chars_eq(&f, &lit("--disambiguation")) {
            a.disambiguation = Some(dup(v));
        } else if chars_eq(&f, &lit("--grammar")) {
            a.grammar = Some(dup(v));
        } else if chars_eq(&f, &lit("--srx")) {
            a.srx = Some(dup(v));
        } else if chars_eq(&f, &lit("--synth-dict")) {
            a.synth_dict = Some(dup(v));
        } else if chars_eq(&f, &lit("--synth-tags")) {
            a.synth_tags = Some(dup(v));
        } else if chars_eq(&f, &lit("--spell-dict")) {
            a.spell_dict = Some(dup(v));
        } else if chars_eq(&f, &lit("--spell-ignore")) {
            let ghost sv = string_views(a.spell_ignore@);
            let d = dup(v);
            a.spell_ignore.push(d);
            assert(string_views(a.spell_ignore@) =~= sv.push(d@));
        } else if chars_eq(&f, &lit("--multiwords")) {
            a.multiwords = Some(dup(v));
        } else {
            a.prohibit = Some(dup(v));
        }
        assert(cli_set(before, f@, v@) == Ok::<CliV, Seq<char>>(cli_view(a)));
        i += 2;
    }
    Ok(a)
}

/// The paths of an engine, each required one present.
pub open spec fn config_spec(a: CliV) -> Result<(Seq<char>, Seq<char>, Seq<char>, Seq<char>), Seq<char>> {
    if a.dict is None {
        Err("--dict (or --data-dir) is required"@)
    } else if a.disambiguation is None {
        Err("--disambiguation (or --data-dir) is required"@)
    } else if a.grammar is None {
        Err("--grammar (or --data-dir) is required"@)
    } else if a.srx is None {
        Err("--srx (or --data-dir) is required"@)
    } else {
        Ok((a.dict->0, a.disambiguation->0, a.grammar->0, a.srx->0))
    }
}

/// The engine's paths from the command line (the required ones must be set).
pub fn config_from(a: CliArgs) -> (r: Result<EngineConfig, String>)
    ensures
        match r {
            Ok(c) => config_spec(cli_view(a)) == Ok::<(Seq<char>, Seq<char>, Seq<char>, Seq<char>), Seq<char>>((c.dict@, c.disambiguation_xml@, c.grammar_xml@, c.srx@))
                && opt_view(c.synth_dict) == opt_view(a.synth_dict) && opt_view(c.synth_tags) == opt_view(a.synth_tags)
                && opt_view(c.spell_dict) == opt_view(a.spell_dict) && string_views(c.spell_ignore@) == string_views(a.spell_ignore@)
                && opt_view(c.spell_multiwords) == opt_view(a.multiwords) && opt_view(c.spell_prohibit) == opt_view(a.prohibit),
            Err(e) => config_spec(cli_view(a)) == Err::<(Seq<char>, Seq<char>, Seq<char>, Seq<char>), Seq<char>>(e@),
        },
{
    let ghost av = cli_view(a);
    let dict = match a.dict {
        Some(d) => d,
        None => return Err(chars_to_string(&lit("--dict (or --data-dir) is required"))),
    };
    let disambiguation_xml = match a.disambiguation {
        Some(d) => d,
        None => return Err(chars_to_string(&lit("--disambiguation (or --data-dir) is required"))),
    };
    let grammar_xml = match a.grammar {
        Some(d) => d,
        None => return Err(chars_to_string(&lit("--grammar (or --data-dir) is required"))),
    };
    let srx = match a.srx {
        Some(d) => d,
        None => return Err(chars_to_string(&lit("--srx (or --data-dir) is required"))),
    };
    Ok(EngineConfig {
        dict,
        disambiguation_xml,
        grammar_xml,
        srx,
        synth_dict: a.synth_dict,
        synth_tags: a.synth_tags,
        spell_dict: a.spell_dict,
        spell_ignore: a.spell_ignore,
        spell_multiwords: a.multiwords,
        spell_prohibit: a.prohibit,
    })
}

} // verus!
