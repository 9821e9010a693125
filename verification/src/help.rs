//! Help text for a command: the usage line, the standard options, the
//! configuration options, the command's own options, positionals and
//! subcommands, with help texts aligned in a column.

use vstd::prelude::*;
use crate::command::{positionals_view, CommandSpec, CommandSpecView};
use crate::keyed::entries_view;
use crate::specs::{CliOptionSpec, CliOptionSpecView, OptionSpec, OptionSpecView, PositionalSpec, PositionalSpecView};
use crate::text::{append_str, chars_of, push_char};
use crate::tree::strings_model;
use crate::value::{default_value_name, ValueType};

verus! {

broadcast use vstd::std_specs::vec::group_vec_axioms;

/// The number of bytes of a character in UTF-8.
pub open spec fn char_utf8_len(c: char) -> nat {
    if (c as u32) < 0x80 {
        1
    } else if (c as u32) < 0x800 {
        2
    } else if (c as u32) < 0x10000 {
        3
    } else {
        4
    }
}

/// The number of bytes of a string in UTF-8 (Rust's `str::len`).
pub open spec fn utf8_len(s: Seq<char>) -> nat
    decreases s.len(),
{
    if s.len() == 0 {
        0
    } else {
        utf8_len(s.drop_last()) + char_utf8_len(s.last())
    }
}

/// `n` spaces.
pub open spec fn spaces(n: nat) -> Seq<char> {
    Seq::new(n, |i: int| ' ')
}

/// A help text placed in the help column: after enough spaces to reach
/// column 24 from `width`, or two spaces when `width` is already there.
pub open spec fn pad_text(help: Seq<char>, width: int) -> Seq<char> {
    (if width >= 24 {
        "  "@
    } else {
        spaces((24 - width) as nat)
    }) + help
}

/// The placeholder after an option's flag: none for a boolean, otherwise
/// ` <NAME>` with the declared value name or the type's placeholder.
pub open spec fn value_suffix(t: ValueType, value_name: Option<Seq<char>>) -> Seq<char> {
    if t is Boolean {
        Seq::empty()
    } else {
        " <"@ + match value_name {
            Some(n) => n,
            None => t.default_value_label(),
        } + ">"@
    }
}

/// The help line of an option: `--flag`, its placeholder and its help text.
pub open spec fn option_line(flag: Seq<char>, t: ValueType, value_name: Option<Seq<char>>, help: Option<Seq<char>>) -> Seq<char> {
    let suffix = value_suffix(t, value_name);
    "  --"@ + flag + suffix + match help {
        Some(h) => pad_text(h, (24 + utf8_len(suffix) + utf8_len(flag)) as int),
        None => Seq::empty(),
    } + "\n"@
}

/// The help lines of configuration options, in order.
pub open spec fn config_lines(opts: Seq<(Seq<char>, OptionSpecView)>) -> Seq<char>
    decreases opts.len(),
{
    if opts.len() == 0 {
        Seq::empty()
    } else {
        let o = opts.last().1;
        config_lines(opts.drop_last()) + option_line(o.long_flag, o.value_type, o.value_name, o.help)
    }
}

/// The help lines of a command's options, in order.
pub open spec fn app_option_lines(opts: Seq<(Seq<char>, CliOptionSpecView)>) -> Seq<char>
    decreases opts.len(),
{
    if opts.len() == 0 {
        Seq::empty()
    } else {
        let o = opts.last().1;
        app_option_lines(opts.drop_last()) + option_line(o.long_flag, o.value_type, o.value_name, o.help)
    }
}

/// A name with its help text in the help column.
pub open spec fn named_line(name: Seq<char>, help: Option<Seq<char>>) -> Seq<char> {
    "  "@ + name + match help {
        Some(h) => pad_text(h, (2 + utf8_len(name)) as int),
        None => Seq::empty(),
    } + "\n"@
}

/// How a positional is named in help: with `...` when it takes several
/// values.
pub open spec fn positional_label(p: PositionalSpecView) -> Seq<char> {
    if p.multiple {
        p.name + "..."@
    } else {
        p.name
    }
}

/// The help lines of positionals, in order.
pub open spec fn positional_lines(ps: Seq<PositionalSpecView>) -> Seq<char>
    decreases ps.len(),
{
    if ps.len() == 0 {
        Seq::empty()
    } else {
        positional_lines(ps.drop_last()) + named_line(positional_label(ps.last()), ps.last().help)
    }
}

/// The help lines of subcommands, in order.
pub open spec fn subcommand_lines(subs: Seq<(Seq<char>, CommandSpecView)>) -> Seq<char>
    decreases subs.len(),
{
    if subs.len() == 0 {
        Seq::empty()
    } else {
        subcommand_lines(subs.drop_last()) + named_line(subs.last().1.name, subs.last().1.help)
    }
}

/// The positionals in the usage line: ` <name>` when required, ` [name]`
/// otherwise, followed by `...` when taking several values.
pub open spec fn positional_usage(ps: Seq<PositionalSpecView>) -> Seq<char>
    decreases ps.len(),
{
    if ps.len() == 0 {
        Seq::empty()
    } else {
        let p = ps.last();
        positional_usage(ps.drop_last()) + (if p.required {
            " <"@ + p.name + ">"@
        } else {
            " ["@ + p.name + "]"@
        }) + (if p.multiple {
            "..."@
        } else {
            Seq::empty()
        })
    }
}

/// Path pieces joined by spaces.
pub open spec fn join_space(p: Seq<Seq<char>>) -> Seq<char>
    decreases p.len(),
{
    if p.len() == 0 {
        Seq::empty()
    } else if p.len() == 1 {
        p[0]
    } else {
        join_space(p.drop_last()) + " "@ + p.last()
    }
}

/// The command path shown in the usage line: the application name alone
/// for the root, the path itself when it starts with the application name,
/// otherwise the application name followed by the path.
pub open spec fn command_path_text(app: Seq<char>, path: Seq<Seq<char>>) -> Seq<char> {
    if path.len() == 0 {
        app
    } else if path[0] == app {
        join_space(path)
    } else {
        app + " "@ + join_space(path)
    }
}

/// The standard options block.
pub open spec fn standard_options_text() -> Seq<char> {
    "\nStandard Options:\n"@ + "  --help                   Show help for this command\n"@
        + "  --config <PATH>          Load an additional JSON or TOML config file\n"@
        + "  --set <KEY=VALUE>        Apply a generic configuration override\n"@
        + "  --print-default-config   Emit default configuration as TOML\n"@
        + "  --print-config           Emit resolved configuration as TOML\n"@
        + "  --debug-config           Emit resolved configuration with provenance\n"@
}

/// The usage line.
pub open spec fn usage_text(
    app: Seq<char>,
    c: CommandSpecView,
    path: Seq<Seq<char>>,
    config: Seq<(Seq<char>, OptionSpecView)>,
) -> Seq<char> {
    "Usage: "@ + command_path_text(app, path) + (if config.len() > 0 || c.options.len() > 0 {
        " [OPTIONS]"@
    } else {
        Seq::empty()
    }) + (if c.subcommands.len() > 0 {
        " [SUBCOMMAND]"@
    } else {
        Seq::empty()
    }) + positional_usage(c.positionals) + "\n"@
}

/// The help text of command `c` reached by `path`, with the application's
/// configuration options `config`: the usage line, the command's help, the
/// standard options, then the configuration options, the command's
/// options, its positionals and its subcommands, each block only when it
/// is not empty.
pub open spec fn help_text(
    app: Seq<char>,
    c: CommandSpecView,
    path: Seq<Seq<char>>,
    config: Seq<(Seq<char>, OptionSpecView)>,
) -> Seq<char> {
    usage_text(app, c, path, config) + match c.help {
        Some(h) => "\n"@ + h + "\n"@,
        None => Seq::empty(),
    } + standard_options_text() + (if config.len() > 0 {
        "\nConfiguration Options:\n"@ + config_lines(config)
    } else {
        Seq::empty()
    }) + (if c.options.len() > 0 {
        "\nOptions:\n"@ + app_option_lines(c.options)
    } else {
        Seq::empty()
    }) + (if c.positionals.len() > 0 {
        "\nPositionals:\n"@ + positional_lines(c.positionals)
    } else {
        Seq::empty()
    }) + (if c.subcommands.len() > 0 {
        "\nSubcommands:\n"@ + subcommand_lines(c.subcommands)
    } else {
        Seq::empty()
    })
}

/// The UTF-8 length of `s`, capped at 100.
fn capped_width(s: &str) -> (r: u64)
    ensures
        r == if utf8_len(s@) < 100 {
            utf8_len(s@)
        } else {
            100
        },
{
    let v = chars_of(s);
    let mut acc: u64 = 0;
    proof {
        assert(v@.take(0) =~= Seq::<char>::empty());
    }
    for i in 0..v.len()
        invariant
            v@ == s@,
            acc == if utf8_len(v@.take(i as int)) < 100 {
                utf8_len(v@.take(i as int))
            } else {
                100
            },
    {
        proof {
            assert(v@.take(i + 1).drop_last() =~= v@.take(i as int));
            assert(v@.take(i + 1).last() == v@[i as int]);
        }
        let c = v[i];
        let w: u64 = if (c as u32) < 0x80 {
            1
        } else if (c as u32) < 0x800 {
            2
        } else if (c as u32) < 0x10000 {
            3
        } else {
            4
        };
        acc = if acc + w < 100 {
            acc + w
        } else {
            100
        };
    }
    proof {
        assert(v@.take(v@.len() as int) == v@);
    }
    acc
}

fn push_str(out: &mut String, t: &str)
    ensures
        final(out)@ == old(out)@ + t@,
{
    append_str(out, t);
}

/// Appends `help` in the help column, from `width` (see `pad_text`).
fn push_padded(out: &mut String, help: &str, width: u64)
    ensures
        final(out)@ == old(out)@ + pad_text(help@, width as int),
{
    let ghost start = out@;
    if width >= 24 {
        push_str(out, "  ");
    } else {
        let n = 24 - width;
        let mut k: u64 = 0;
        while k < n
            invariant
                k <= n,
                n == 24 - width,
                out@ == start + spaces(k as nat),
            decreases n - k,
        {
            push_char(out, ' ');
            k = k + 1;
            proof {
                assert(out@ =~= start + spaces(k as nat));
            }
        }
    }
    push_str(out, help);
    proof {
        assert(out@ =~= start + pad_text(help@, width as int));
    }
}

/// Appends the placeholder after an option's flag (see `value_suffix`).
fn suffix_text(t: &ValueType, value_name: Option<&str>) -> (r: String)
    ensures
        r@ == value_suffix(*t, match value_name {
            Some(n) => Some(n@),
            None => None,
        }),
{
    if matches!(t, ValueType::Boolean) {
        String::new()
    } else {
        let mut s = String::new();
        push_str(&mut s, " <");
        match value_name {
            Some(n) => push_str(&mut s, n),
            None => push_str(&mut s, default_value_name(t).as_str()),
        }
        push_str(&mut s, ">");
        proof {
            assert(s@ =~= value_suffix(*t, match value_name {
                Some(n) => Some(n@),
                None => None,
            }));
        }
        s
    }
}

/// Appends the help line of an option (see `option_line`).
fn push_option_line(out: &mut String, flag: &str, t: &ValueType, value_name: Option<&str>, help: Option<&str>)
    ensures
        final(out)@ == old(out)@ + option_line(
            flag@,
            *t,
            match value_name {
                Some(n) => Some(n@),
                None => None,
            },
            match help {
                Some(h) => Some(h@),
                None => None,
            },
        ),
{
    let ghost start = out@;
    let suffix = suffix_text(t, value_name);
    push_str(out, "  --");
    push_str(out, flag);
    push_str(out, suffix.as_str());
    let ghost mid = out@;
    match help {
        Some(h) => {
            push_padded(out, h, 24);
            proof {
                assert(pad_text(h@, (24 + utf8_len(suffix@) + utf8_len(flag@)) as int) == pad_text(h@, 24));
            }
        },
        None => {},
    }
    push_str(out, "\n");
    proof {
        assert(out@ =~= start + option_line(
            flag@,
            *t,
            match value_name {
                Some(n) => Some(n@),
                None => None,
            },
            match help {
                Some(h) => Some(h@),
                None => None,
            },
        ));
    }
}

/// Appends a name with its help text (see `named_line`).
fn push_named_line(out: &mut String, name: &str, help: Option<&str>)
    ensures
        final(out)@ == old(out)@ + named_line(name@, match help {
            Some(h) => Some(h@),
            None => None,
        }),
{
    let ghost start = out@;
    push_str(out, "  ");
    push_str(out, name);
    match help {
        Some(h) => {
            let w = capped_width(name);
            push_padded(out, h, 2 + w);
            proof {
                assert(pad_text(h@, (2 + utf8_len(name@)) as int) == pad_text(h@, (2 + w) as int));
            }
        },
        None => {},
    }
    push_str(out, "\n");
    proof {
        assert(out@ =~= start + named_line(name@, match help {
            Some(h) => Some(h@),
            None => None,
        }));
    }
}

/// Renders the help text (see `help_text`).
pub fn render_help_text(
    app: &str,
    command: &CommandSpec,
    path: &Vec<String>,
    config: &Vec<(String, OptionSpec)>,
) -> (r: String)
    ensures
        r@ == help_text(app@, command@, strings_model(path@), entries_view(config@)),
{
    let mut out = String::new();
    push_usage(&mut out, app, command, path, config);
    let ghost u = out@;
    push_intro(&mut out, command);
    let ghost v = out@;
    push_blocks(&mut out, command, config);
    proof {
        assert(out@ =~= help_text(app@, command@, strings_model(path@), entries_view(config@)));
    }
    out
}

/// Appends the usage line (see `usage_text`).
fn push_usage(out: &mut String, app: &str, command: &CommandSpec, path: &Vec<String>, config: &Vec<(String, OptionSpec)>)
    ensures
        final(out)@ == old(out)@ + usage_text(app@, command@, strings_model(path@), entries_view(config@)),
{
    let ghost start = out@;
    push_str(out, "Usage: ");
    push_command_path(out, app, path);
    let options = command.options();
    let positionals = command.positionals();
    let subcommands = command.subcommands();
    if config.len() > 0 || options.len() > 0 {
        push_str(out, " [OPTIONS]");
    }
    if subcommands.len() > 0 {
        push_str(out, " [SUBCOMMAND]");
    }
    push_positional_usage(out, positionals);
    push_str(out, "\n");
    proof {
        assert(out@ =~= start + usage_text(app@, command@, strings_model(path@), entries_view(config@)));
    }
}

/// Appends the command's help and the standard options.
fn push_intro(out: &mut String, command: &CommandSpec)
    ensures
        final(out)@ == old(out)@ + match command@.help {
            Some(h) => "\n"@ + h + "\n"@,
            None => Seq::empty(),
        } + standard_options_text(),
{
    let ghost start = out@;
    match command.help() {
        Some(h) => {
            push_str(out, "\n");
            push_str(out, h);
            push_str(out, "\n");
        },
        None => {},
    }
    push_str(out, "\nStandard Options:\n");
    push_str(out, "  --help                   Show help for this command\n");
    push_str(out, "  --config <PATH>          Load an additional JSON or TOML config file\n");
    push_str(out, "  --set <KEY=VALUE>        Apply a generic configuration override\n");
    push_str(out, "  --print-default-config   Emit default configuration as TOML\n");
    push_str(out, "  --print-config           Emit resolved configuration as TOML\n");
    push_str(out, "  --debug-config           Emit resolved configuration with provenance\n");
    proof {
        assert(out@ =~= start + match command@.help {
            Some(h) => "\n"@ + h + "\n"@,
            None => Seq::empty(),
        } + standard_options_text());
    }
}

/// Appends the blocks of configuration options, options, positionals and
/// subcommands that are not empty.
fn push_blocks(out: &mut String, command: &CommandSpec, config: &Vec<(String, OptionSpec)>)
    ensures
        final(out)@ == old(out)@ + (if entries_view(config@).len() > 0 {
            "\nConfiguration Options:\n"@ + config_lines(entries_view(config@))
        } else {
            Seq::empty()
        }) + (if command@.options.len() > 0 {
            "\nOptions:\n"@ + app_option_lines(command@.options)
        } else {
            Seq::empty()
        }) + (if command@.positionals.len() > 0 {
            "\nPositionals:\n"@ + positional_lines(command@.positionals)
        } else {
            Seq::empty()
        }) + (if command@.subcommands.len() > 0 {
            "\nSubcommands:\n"@ + subcommand_lines(command@.subcommands)
        } else {
            Seq::empty()
        }),
{
    let ghost start = out@;
    let ghost cv = command@;
    let ghost ov = entries_view(config@);
    let options = command.options();
    let positionals = command.positionals();
    let subcommands = command.subcommands();
    if config.len() > 0 {
        push_str(out, "\nConfiguration Options:\n");
        push_config_lines(out, config);
    }
    let ghost b1 = out@;
    proof {
        assert(b1 =~= start + (if ov.len() > 0 {
            "\nConfiguration Options:\n"@ + config_lines(ov)
        } else {
            Seq::empty()
        }));
    }
    if options.len() > 0 {
        push_str(out, "\nOptions:\n");
        push_app_option_lines(out, options);
    }
    let ghost b2 = out@;
    proof {
        assert(b2 =~= b1 + (if cv.options.len() > 0 {
            "\nOptions:\n"@ + app_option_lines(cv.options)
        } else {
            Seq::empty()
        }));
    }
    if positionals.len() > 0 {
        push_str(out, "\nPositionals:\n");
        push_positional_lines(out, positionals);
    }
    let ghost b3 = out@;
    proof {
        assert(b3 =~= b2 + (if cv.positionals.len() > 0 {
            "\nPositionals:\n"@ + positional_lines(cv.positionals)
        } else {
            Seq::empty()
        }));
    }
    if subcommands.len() > 0 {
        push_str(out, "\nSubcommands:\n");
        push_subcommand_lines(out, subcommands);
    }
    proof {
        assert(out@ =~= b3 + (if cv.subcommands.len() > 0 {
            "\nSubcommands:\n"@ + subcommand_lines(cv.subcommands)
        } else {
            Seq::empty()
        }));
    }
}

/// Appends the command path of the usage line (see `command_path_text`).
fn push_command_path(out: &mut String, app: &str, path: &Vec<String>)
    ensures
        final(out)@ == old(out)@ + command_path_text(app@, strings_model(path@)),
{
    let ghost start = out@;
    let ghost pv = strings_model(path@);
    if path.len() == 0 {
        push_str(out, app);
        return;
    }
    if !crate::text::str_eq(path[0].as_str(), app) {
        push_str(out, app);
        push_str(out, " ");
    }
    let ghost head = out@;
    proof {
        assert(pv.take(0) =~= Seq::<Seq<char>>::empty());
        assert(out@ =~= head + join_space(pv.take(0)));
    }
    for i in 0..path.len()
        invariant
            pv == strings_model(path@),
            out@ == head + join_space(pv.take(i as int)),
    {
        proof {
            assert(pv.take(i + 1).drop_last() =~= pv.take(i as int));
            assert(pv.take(i + 1).last() == path@[i as int]@);
        }
        if i > 0 {
            push_str(out, " ");
        }
        push_str(out, path[i].as_str());
        proof {
            if i == 0 {
                assert(pv.take(1).len() == 1);
            }
            assert(out@ =~= head + join_space(pv.take(i + 1)));
        }
    }
    proof {
        assert(pv.take(pv.len() as int) == pv);
        assert(out@ =~= start + command_path_text(app@, pv));
    }
}

/// Appends the positionals of the usage line (see `positional_usage`).
fn push_positional_usage(out: &mut String, ps: &[PositionalSpec])
    ensures
        final(out)@ == old(out)@ + positional_usage(positionals_view(ps@)),
{
    let ghost start = out@;
    let ghost pv = positionals_view(ps@);
    proof {
        assert(pv.take(0) =~= Seq::<PositionalSpecView>::empty());
        assert(out@ =~= start + positional_usage(pv.take(0)));
    }
    for i in 0..ps.len()
        invariant
            pv == positionals_view(ps@),
            out@ == start + positional_usage(pv.take(i as int)),
    {
        proof {
            assert(pv.take(i + 1).drop_last() =~= pv.take(i as int));
            assert(pv.take(i + 1).last() == ps@[i as int]@);
        }
        let ghost before = out@;
        let p = &ps[i];
        if p.required() {
            push_str(out, " <");
            push_str(out, p.name());
            push_str(out, ">");
        } else {
            push_str(out, " [");
            push_str(out, p.name());
            push_str(out, "]");
        }
        if p.multiple_values() {
            push_str(out, "...");
        }
        proof {
            assert(out@ =~= start + positional_usage(pv.take(i + 1)));
        }
    }
    proof {
        assert(pv.take(pv.len() as int) == pv);
    }
}

/// Appends the configuration option lines (see `config_lines`).
fn push_config_lines(out: &mut String, opts: &Vec<(String, OptionSpec)>)
    ensures
        final(out)@ == old(out)@ + config_lines(entries_view(opts@)),
{
    let ghost start = out@;
    let ghost ov = entries_view(opts@);
    proof {
        assert(ov.take(0) =~= Seq::<(Seq<char>, OptionSpecView)>::empty());
        assert(out@ =~= start + config_lines(ov.take(0)));
    }
    for i in 0..opts.len()
        invariant
            ov == entries_view(opts@),
            out@ == start + config_lines(ov.take(i as int)),
    {
        proof {
            assert(ov.take(i + 1).drop_last() =~= ov.take(i as int));
            assert(ov.take(i + 1).last() == (opts@[i as int].0@, opts@[i as int].1@));
        }
        let o = &opts[i].1;
        push_option_line(out, o.long_flag(), o.value_type(), o.value_name(), o.help());
        proof {
            assert(out@ =~= start + config_lines(ov.take(i + 1)));
        }
    }
    proof {
        assert(ov.take(ov.len() as int) == ov);
    }
}

/// Appends the command's option lines (see `app_option_lines`).
fn push_app_option_lines(out: &mut String, opts: &Vec<(String, CliOptionSpec)>)
    ensures
        final(out)@ == old(out)@ + app_option_lines(entries_view(opts@)),
{
    let ghost start = out@;
    let ghost ov = entries_view(opts@);
    proof {
        assert(ov.take(0) =~= Seq::<(Seq<char>, CliOptionSpecView)>::empty());
        assert(out@ =~= start + app_option_lines(ov.take(0)));
    }
    for i in 0..opts.len()
        invariant
            ov == entries_view(opts@),
            out@ == start + app_option_lines(ov.take(i as int)),
    {
        proof {
            assert(ov.take(i + 1).drop_last() =~= ov.take(i as int));
            assert(ov.take(i + 1).last() == (opts@[i as int].0@, opts@[i as int].1@));
        }
        let o = &opts[i].1;
        push_option_line(out, o.long_flag(), o.value_type(), o.value_name(), o.help());
        proof {
            assert(out@ =~= start + app_option_lines(ov.take(i + 1)));
        }
    }
    proof {
        assert(ov.take(ov.len() as int) == ov);
    }
}

/// Appends the positional lines (see `positional_lines`).
fn push_positional_lines(out: &mut String, ps: &[PositionalSpec])
    ensures
        final(out)@ == old(out)@ + positional_lines(positionals_view(ps@)),
{
    let ghost start = out@;
    let ghost pv = positionals_view(ps@);
    proof {
        assert(pv.take(0) =~= Seq::<PositionalSpecView>::empty());
        assert(out@ =~= start + positional_lines(pv.take(0)));
    }
    for i in 0..ps.len()
        invariant
            pv == positionals_view(ps@),
            out@ == start + positional_lines(pv.take(i as int)),
    {
        proof {
            assert(pv.take(i + 1).drop_last() =~= pv.take(i as int));
            assert(pv.take(i + 1).last() == ps@[i as int]@);
        }
        let p = &ps[i];
        let mut label = crate::text::copy_str(p.name());
        if p.multiple_values() {
            push_str(&mut label, "...");
        }
        push_named_line(out, label.as_str(), p.help());
        proof {
            assert(out@ =~= start + positional_lines(pv.take(i + 1)));
        }
    }
    proof {
        assert(pv.take(pv.len() as int) == pv);
    }
}

/// Appends the subcommand lines (see `subcommand_lines`).
fn push_subcommand_lines(out: &mut String, subs: &Vec<(String, CommandSpec)>)
    ensures
        final(out)@ == old(out)@ + subcommand_lines(entries_view(subs@)),
{
    let ghost start = out@;
    let ghost sv = entries_view(subs@);
    proof {
        assert(sv.take(0) =~= Seq::<(Seq<char>, CommandSpecView)>::empty());
        assert(out@ =~= start + subcommand_lines(sv.take(0)));
    }
    for i in 0..subs.len()
        invariant
            sv == entries_view(subs@),
            out@ == start + subcommand_lines(sv.take(i as int)),
    {
        proof {
            assert(sv.take(i + 1).drop_last() =~= sv.take(i as int));
            assert(sv.take(i + 1).last() == (subs@[i as int].0@, subs@[i as int].1@));
        }
        let c = &subs[i].1;
        push_named_line(out, c.name(), c.help());
        proof {
            assert(out@ =~= start + subcommand_lines(sv.take(i + 1)));
        }
    }
    proof {
        assert(sv.take(sv.len() as int) == sv);
    }
}

} // verus!

verus! {

/// The path pieces joined by spaces (see `join_space`).
pub fn join_with_space(path: &Vec<String>) -> (r: String)
    ensures
        r@ == join_space(strings_model(path@)),
{
    let ghost pv = strings_model(path@);
    let mut out = String::new();
    proof {
        assert(pv.take(0) =~= Seq::<Seq<char>>::empty());
    }
    for i in 0..path.len()
        invariant
            pv == strings_model(path@),
            out@ == join_space(pv.take(i as int)),
    {
        proof {
            assert(pv.take(i + 1).drop_last() =~= pv.take(i as int));
            assert(pv.take(i + 1).last() == path@[i as int]@);
        }
        if i > 0 {
            push_str(&mut out, " ");
        }
        push_str(&mut out, path[i].as_str());
        proof {
            if i == 0 {
                assert(pv.take(1).len() == 1);
                assert(out@ =~= join_space(pv.take(1)));
            } else {
                assert(out@ =~= join_space(pv.take(i + 1)));
            }
        }
    }
    proof {
        assert(pv.take(pv.len() as int) == pv);
    }
    out
}

} // verus!
