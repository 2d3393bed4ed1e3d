//! Which editor to spawn, and how to tell it to open a line.
//!
//! The editor is the one asked for, else `$VISUAL`, else `$EDITOR`, else a platform
//! default. The template of its arguments is guessed from its name, unless one is
//! given.

use crate::text::{
    chars_of, chars_occur_at, clone_strings, decimal, decimal_of, is_whitespace, lowercase,
    occurs_at, same_str, substring_of, to_lowercase, views, whitespace,
};
use vstd::prelude::*;
use vstd::string::*;

verus! {

/// The template used when nothing more specific matches the name of the editor.
pub const DEFAULT_TEMPLATE: &'static str = "+{line} {file}";

// ---------------------------------------------------------------------------
// Command lines
// ---------------------------------------------------------------------------

/// The state of the tokenizer.
pub struct Shell {
    pub out: Seq<Seq<char>>,
    pub cur: Seq<char>,
    pub in_single: bool,
    pub in_double: bool,
    pub has_token: bool,
}

/// The tokenizer after one more character. Quotes group; whitespace outside quotes
/// ends a token.
pub open spec fn shell_step(s: Shell, c: char) -> Shell {
    if c == '\'' && !s.in_double {
        Shell { in_single: !s.in_single, has_token: true, ..s }
    } else if c == '"' && !s.in_single {
        Shell { in_double: !s.in_double, has_token: true, ..s }
    } else if whitespace(c) && !s.in_single && !s.in_double {
        if s.has_token {
            Shell { out: s.out.push(s.cur), cur: Seq::empty(), has_token: false, ..s }
        } else {
            s
        }
    } else {
        Shell { cur: s.cur.push(c), has_token: true, ..s }
    }
}

/// The tokenizer after the first `k` characters.
pub open spec fn shell_state(s: Seq<char>, k: int) -> Shell
    decreases k,
{
    if k <= 0 {
        Shell {
            out: Seq::empty(),
            cur: Seq::empty(),
            in_single: false,
            in_double: false,
            has_token: false,
        }
    } else {
        shell_step(shell_state(s, k - 1), s[k - 1])
    }
}

/// The tokens of a command line.
pub open spec fn shell_tokens(s: Seq<char>) -> Seq<Seq<char>> {
    let end = shell_state(s, s.len() as int);
    if end.has_token {
        end.out.push(end.cur)
    } else {
        end.out
    }
}

/// Splits a command line at whitespace, honoring single and double quotes.
pub fn split_shell(s: &str) -> (r: Vec<String>)
    ensures
        views(r@) == shell_tokens(s@),
{
    let c = chars_of(s);
    let mut out: Vec<String> = Vec::new();
    let mut cur = String::new();
    let mut in_single = false;
    let mut in_double = false;
    let mut has_token = false;
    let mut k: usize = 0;
    assert(views(out@) =~= Seq::empty());
    assert(cur@ =~= Seq::empty());
    while k < c.len()
        invariant
            k <= c@.len(),
            c@ == s@,
            shell_state(s@, k as int) == (Shell {
                out: views(out@),
                cur: cur@,
                in_single,
                in_double,
                has_token,
            }),
        decreases c@.len() - k,
    {
        let ch = c[k];
        if ch == '\'' && !in_double {
            in_single = !in_single;
            has_token = true;
        } else if ch == '"' && !in_single {
            in_double = !in_double;
            has_token = true;
        } else if is_whitespace(ch) && !in_single && !in_double {
            if has_token {
                let ghost before = views(out@);
                out.push(cur);
                assert(views(out@) =~= before.push(cur@));
                cur = String::new();
                assert(cur@ =~= Seq::empty());
                has_token = false;
            }
        } else {
            cur.push(ch);
            has_token = true;
        }
        k += 1;
    }
    if has_token {
        let ghost before = views(out@);
        out.push(cur);
        assert(views(out@) =~= before.push(cur@));
    }
    out
}

// ---------------------------------------------------------------------------
// Templates
// ---------------------------------------------------------------------------

/// Where the last path component of `s[..e]` starts, at a slash of either kind.
pub open spec fn basename_start(s: Seq<char>, e: int) -> int
    decreases e,
{
    if e <= 0 {
        0
    } else if s[e - 1] == '/' || s[e - 1] == '\\' {
        e
    } else {
        basename_start(s, e - 1)
    }
}

/// Where `s[..e]` ends without the endings `.exe` at its end.
pub open spec fn exe_end(s: Seq<char>, e: int) -> int
    decreases e,
{
    if e >= 4 && s[e - 4] == '.' && s[e - 3] == 'e' && s[e - 2] == 'x' && s[e - 1] == 'e' {
        exe_end(s, e - 4)
    } else {
        e
    }
}

/// The name of an editor: the last component of its path, without `.exe`, in lower
/// case.
pub open spec fn editor_name(command: Seq<char>) -> Seq<char> {
    let base = command.skip(basename_start(command, command.len() as int));
    lowercase(base.take(exe_end(base, base.len() as int)))
}

/// The template of an editor, by its name.
pub open spec fn template_named(name: Seq<char>) -> Seq<char> {
    if name == "code"@ || name == "code-insiders"@ || name == "codium"@ {
        "-g {file}:{line}:{column}"@
    } else if name == "subl"@ || name == "sublime_text"@ || name == "zed"@ {
        "{file}:{line}:{column}"@
    } else if name == "notepad++"@ || name == "notepad++.exe"@ {
        "-n{line} {file}"@
    } else if name == "notepad"@ {
        "{file}"@
    } else {
        DEFAULT_TEMPLATE@
    }
}

/// The template for the editor of a command line.
pub open spec fn guessed_template(argv: Seq<Seq<char>>) -> Seq<char> {
    template_named(
        editor_name(
            if argv.len() > 0 {
                argv[0]
            } else {
                Seq::empty()
            },
        ),
    )
}

fn editor_name_of(command: &str) -> (r: String)
    ensures
        r@ == editor_name(command@),
{
    let c = chars_of(command);
    let mut from: usize = c.len();
    while from > 0 && c[from - 1] != '/' && c[from - 1] != '\\'
        invariant
            from <= c@.len(),
            basename_start(c@, from as int) == basename_start(c@, c@.len() as int),
        decreases from,
    {
        from -= 1;
    }
    let base = chars_of(&substring_of(&c, from, c.len()));
    assert(base@ =~= c@.skip(from as int));
    let mut end: usize = base.len();
    while end >= 4 && base[end - 4] == '.' && base[end - 3] == 'e' && base[end - 2] == 'x' && base[end
        - 1] == 'e'
        invariant
            end <= base@.len(),
            exe_end(base@, end as int) == exe_end(base@, base@.len() as int),
        decreases end,
    {
        end -= 4;
    }
    assert(base@.subrange(0, end as int) =~= base@.take(end as int));
    to_lowercase(&substring_of(&base, 0, end))
}

/// Guesses the template of an editor from its name.
pub fn template_for(argv: &[String]) -> (r: String)
    ensures
        r@ == guessed_template(views(argv@)),
{
    assert(views(argv@).len() == argv@.len());
    let name = if argv.len() > 0 {
        assert(views(argv@)[0] == argv@[0]@);
        editor_name_of(&argv[0])
    } else {
        let none = String::new();
        assert(none@ =~= Seq::empty());
        editor_name_of(&none)
    };
    if same_str(&name, "code") || same_str(&name, "code-insiders") || same_str(&name, "codium") {
        "-g {file}:{line}:{column}".to_owned()
    } else if same_str(&name, "subl") || same_str(&name, "sublime_text") || same_str(&name, "zed") {
        "{file}:{line}:{column}".to_owned()
    } else if same_str(&name, "notepad++") || same_str(&name, "notepad++.exe") {
        "-n{line} {file}".to_owned()
    } else if same_str(&name, "notepad") {
        "{file}".to_owned()
    } else {
        DEFAULT_TEMPLATE.to_owned()
    }
}

/// The first of the given strings that is there.
pub open spec fn first_of(a: Option<Seq<char>>, b: Seq<char>) -> Seq<char> {
    match a {
        Some(x) => x,
        None => b,
    }
}

/// The view of an optional string slice.
pub open spec fn str_view(s: Option<&str>) -> Option<Seq<char>> {
    match s {
        Some(t) => Some(t@),
        None => None,
    }
}

/// The command line of the editor to use.
pub open spec fn editor_command(
    asked: Option<Seq<char>>,
    visual: Option<Seq<char>>,
    editor: Option<Seq<char>>,
    platform: Seq<char>,
) -> Seq<char> {
    first_of(asked, first_of(visual, first_of(editor, platform)))
}

/// Resolves the command line of the editor and the template of its arguments.
/// `visual` and `editor` are the values of the environment variables, `platform` is
/// the default of the platform.
pub fn resolve(
    editor_override: Option<&str>,
    template_override: Option<&str>,
    visual: Option<&str>,
    editor: Option<&str>,
    platform: &str,
) -> (r: (Vec<String>, String))
    ensures
        ({
            let argv = shell_tokens(
                editor_command(
                    str_view(editor_override),
                    str_view(visual),
                    str_view(editor),
                    platform@,
                ),
            );
            views(r.0@) == argv && r.1@ == first_of(
                str_view(template_override),
                guessed_template(argv),
            )
        }),
{
    let command = match editor_override {
        Some(e) => e,
        None => match visual {
            Some(v) => v,
            None => match editor {
                Some(e) => e,
                None => platform,
            },
        },
    };
    let argv = split_shell(command);
    let template = match template_override {
        Some(t) => t.to_owned(),
        None => template_for(&argv),
    };
    (argv, template)
}

// ---------------------------------------------------------------------------
// Arguments
// ---------------------------------------------------------------------------

/// `s[i..]` with every occurrence of `p`, from left to right, replaced by `with`.
pub open spec fn replaced(s: Seq<char>, p: Seq<char>, with: Seq<char>, i: int) -> Seq<char>
    decreases s.len() - i,
{
    if i < 0 || i >= s.len() {
        Seq::empty()
    } else if p.len() > 0 && occurs_at(s, p, i) {
        with + replaced(s, p, with, i + p.len())
    } else {
        seq![s[i]] + replaced(s, p, with, i + 1)
    }
}

fn replace(s: &str, p: &str, with: &str) -> (r: String)
    ensures
        r@ == replaced(s@, p@, with@, 0),
{
    let c = chars_of(s);
    let pc = chars_of(p);
    let mut out = String::new();
    let mut i: usize = 0;
    assert(out@ + replaced(s@, p@, with@, 0) =~= replaced(s@, p@, with@, 0));
    while i < c.len()
        invariant
            c@ == s@,
            pc@ == p@,
            i <= c@.len(),
            out@ + replaced(s@, p@, with@, i as int) == replaced(s@, p@, with@, 0),
        decreases c@.len() - i,
    {
        let ghost before = out@;
        let ghost rest = replaced(s@, p@, with@, i as int);
        if pc.len() > 0 && chars_occur_at(&c, &pc, i) {
            out.append(with);
            i += pc.len();
        } else {
            out.push(c[i]);
            i += 1;
        }
        assert(out@ + replaced(s@, p@, with@, i as int) =~= before + rest);
    }
    assert(out@ + replaced(s@, p@, with@, i as int) =~= out@);
    out
}

/// A token of a template with the file, the line and the column filled in.
pub open spec fn filled(t: Seq<char>, path: Seq<char>, line: nat, column: nat) -> Seq<char> {
    replaced(
        replaced(replaced(t, "{file}"@, path, 0), "{line}"@, decimal(line), 0),
        "{column}"@,
        decimal(column),
        0,
    )
}

/// The command line that opens a place: the editor, then the tokens of the template
/// filled in; the file alone where the template is empty.
pub open spec fn open_command(
    argv: Seq<Seq<char>>,
    template: Seq<char>,
    path: Seq<char>,
    line: nat,
    column: nat,
) -> Seq<Seq<char>> {
    let tokens = shell_tokens(template);
    let used = if tokens.len() == 0 {
        seq!["{file}"@]
    } else {
        tokens
    };
    argv + used.map_values(|t: Seq<char>| filled(t, path, line, column))
}

/// Builds the command line that opens `path` at `line` and `column`. A path with
/// spaces stays one argument.
pub fn open_args(
    editor_argv: &[String],
    line_template: &str,
    path: &str,
    line: usize,
    column: usize,
) -> (r: Vec<String>)
    ensures
        views(r@) == open_command(
            views(editor_argv@),
            line_template@,
            path@,
            line as nat,
            column as nat,
        ),
{
    let mut argv = clone_strings(editor_argv);
    let mut tokens = split_shell(line_template);
    assert(views(tokens@).len() == tokens@.len());
    if tokens.len() == 0 {
        tokens.push("{file}".to_owned());
        assert(views(tokens@) =~= seq!["{file}"@]);
    }
    let ghost start = views(editor_argv@);
    let ghost used = views(tokens@);
    let ghost want = used.map_values(
        |t: Seq<char>| filled(t, path@, line as nat, column as nat),
    );
    let l = decimal_of(line);
    let c = decimal_of(column);
    let mut k: usize = 0;
    assert(views(argv@) =~= start + want.take(0));
    while k < tokens.len()
        invariant
            k <= tokens@.len(),
            used == views(tokens@),
            l@ == decimal(line as nat),
            c@ == decimal(column as nat),
            want == used.map_values(|t: Seq<char>| filled(t, path@, line as nat, column as nat)),
            views(argv@) =~= start + want.take(k as int),
        decreases tokens@.len() - k,
    {
        assert(used[k as int] == tokens@[k as int]@);
        let ghost before = views(argv@);
        argv.push(replace(&replace(&replace(&tokens[k], "{file}", path), "{line}", &l), "{column}", &c));
        assert(views(argv@) =~= before.push(want[k as int]));
        k += 1;
    }
    assert(want.take(k as int) =~= want);
    argv
}

/// A template gives one argument for each of its tokens, whatever is filled in: a
/// path with spaces stays one argument.
pub proof fn one_argument_per_token(
    argv: Seq<Seq<char>>,
    template: Seq<char>,
    path: Seq<char>,
    line: nat,
    column: nat,
)
    requires
        shell_tokens(template).len() > 0,
    ensures
        open_command(argv, template, path, line, column).len() == argv.len() + shell_tokens(
            template,
        ).len(),
        open_command(argv, template, path, line, column).take(argv.len() as int) == argv,
{
    assert(open_command(argv, template, path, line, column).take(argv.len() as int) =~= argv);
}

} // verus!
