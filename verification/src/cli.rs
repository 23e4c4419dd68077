//! The decisions of the debug command line: reading the
//! `parse <FILE> [--format json|md] [--debug]` invocation, and the Markdown
//! it prints.

use vstd::prelude::*;
use vstd::string::StringExecFns;

use crate::ir::Document;
use crate::markdown::{to_markdown, to_markdown_spec};

verus! {

/// One-line usage banner reused across argument errors.
pub open spec fn usage() -> Seq<char> {
    "usage: pdfmuse parse <FILE> [--format json|md] [--debug]"@
}

fn usage_str() -> (s: &'static str)
    ensures
        s@ == usage(),
{
    "usage: pdfmuse parse <FILE> [--format json|md] [--debug]"
}

/// The output representation chosen via `--format`.
#[derive(Clone, Copy, Debug, PartialEq, Eq, Structural)]
pub enum OutputFormat {
    /// Pretty-printed JSON of the whole document (the default).
    Json,
    /// Markdown.
    Markdown,
}

/// Parsed command-line arguments for the `parse` subcommand.
#[derive(Debug)]
pub struct Args {
    pub file: String,
    pub format: OutputFormat,
    pub debug: bool,
}

/// What `parse_args` reads from the arguments after `parse`, from position
/// `i` on, given the file, format and debug flag seen so far: the file,
/// format and flag, or the error message.
pub open spec fn parse_rest(
    args: Seq<Seq<char>>,
    i: int,
    file: Option<Seq<char>>,
    format: OutputFormat,
    debug: bool,
) -> Result<(Seq<char>, OutputFormat, bool), Seq<char>>
    decreases args.len() - i,
{
    if i < 0 || i >= args.len() {
        match file {
            Some(f) => Ok((f, format, debug)),
            None => Err("missing <FILE>\n"@ + usage()),
        }
    } else {
        let a = args[i];
        if a == "--format"@ {
            if i + 1 >= args.len() {
                Err("--format needs a value (json|md)\n"@ + usage())
            } else if args[i + 1] == "json"@ {
                parse_rest(args, i + 2, file, OutputFormat::Json, debug)
            } else if args[i + 1] == "md"@ {
                parse_rest(args, i + 2, file, OutputFormat::Markdown, debug)
            } else {
                Err("unknown format '"@ + args[i + 1] + "' (expected json|md)\n"@ + usage())
            }
        } else if a == "--debug"@ {
            parse_rest(args, i + 1, file, format, true)
        } else if a.len() > 0 && a[0] == '-' {
            Err("unknown option '"@ + a + "'\n"@ + usage())
        } else if file is None {
            parse_rest(args, i + 1, Some(a), format, debug)
        } else {
            Err("unexpected argument '"@ + a + "'\n"@ + usage())
        }
    }
}

/// The arguments (without the program name) read as
/// `parse <FILE> [--format json|md] [--debug]`: options may come in any
/// order, the first bare argument is the file, later ones are refused.
pub open spec fn parse_args_spec(args: Seq<Seq<char>>) -> Result<(Seq<char>, OutputFormat, bool), Seq<char>> {
    if args.len() == 0 {
        Err("missing command\n"@ + usage())
    } else if args[0] == "parse"@ {
        parse_rest(args, 1, None, OutputFormat::Json, false)
    } else {
        Err("unknown command '"@ + args[0] + "'\n"@ + usage())
    }
}

/// `"<before>" + s + "<after>" + usage`.
fn quoted_error(before: &str, s: &str, after: &str) -> (m: String)
    ensures
        m@ == before@ + s@ + after@ + usage(),
{
    let mut m = before.to_owned();
    m.append(s);
    m.append(after);
    m.append(usage_str());
    m
}

fn plain_error(before: &str) -> (m: String)
    ensures
        m@ == before@ + usage(),
{
    let mut m = before.to_owned();
    m.append(usage_str());
    m
}

/// Parse the `parse <FILE> [--format json|md] [--debug]` invocation
/// (`args` without the program name).
pub fn parse_args(args: Vec<String>) -> (r: Result<Args, String>)
    ensures
        match parse_args_spec(args@.map_values(|s: String| s@)) {
            Ok((f, fmt, dbg)) => r matches Ok(a) && a.file@ == f && a.format == fmt && a.debug == dbg,
            Err(m) => r matches Err(e) && e@ == m,
        },
{
    let ghost av = args@.map_values(|s: String| s@);
    if args.len() == 0 {
        return Err(plain_error("missing command\n"));
    }
    if args[0] != "parse".to_owned() {
        return Err(quoted_error("unknown command '", args[0].as_str(), "'\n"));
    }
    let mut file: Option<String> = None;
    let mut format = OutputFormat::Json;
    let mut debug = false;
    let mut i: usize = 1;
    while i < args.len()
        invariant
            av == args@.map_values(|s: String| s@),
            1 <= i <= args@.len(),
            parse_args_spec(av) == parse_rest(
                av,
                i as int,
                match file {
                    Some(f) => Some(f@),
                    None => None,
                },
                format,
                debug,
            ),
        decreases args@.len() - i,
    {
        let a = &args[i];
        assert(av[i as int] == a@);
        if *a == "--format".to_owned() {
            if i + 1 >= args.len() {
                return Err(plain_error("--format needs a value (json|md)\n"));
            }
            let v = &args[i + 1];
            assert(av[i + 1] == v@);
            if *v == "json".to_owned() {
                format = OutputFormat::Json;
            } else if *v == "md".to_owned() {
                format = OutputFormat::Markdown;
            } else {
                return Err(quoted_error("unknown format '", v.as_str(), "' (expected json|md)\n"));
            }
            i = i + 2;
        } else if *a == "--debug".to_owned() {
            debug = true;
            i = i + 1;
        } else {
            let cs = crate::text::chars_of(a.as_str());
            if cs.len() > 0 && cs[0] == '-' {
                return Err(quoted_error("unknown option '", a.as_str(), "'\n"));
            }
            if file.is_none() {
                file = Some(a.clone());
                i = i + 1;
            } else {
                return Err(quoted_error("unexpected argument '", a.as_str(), "'\n"));
            }
        }
    }
    match file {
        Some(f) => Ok(Args { file: f, format, debug }),
        None => Err(plain_error("missing <FILE>\n")),
    }
}

/// The Markdown the command line prints: the document's Markdown and a
/// final newline.
pub fn render_markdown(doc: &Document) -> (s: String)
    ensures
        s@ == to_markdown_spec(*doc).push('\n'),
{
    let mut out = to_markdown(doc);
    crate::text::push_char(&mut out, '\n');
    out
}


proof fn lemma_rest_errors_end_with_usage(
    args: Seq<Seq<char>>,
    i: int,
    file: Option<Seq<char>>,
    format: OutputFormat,
    debug: bool,
)
    ensures
        parse_rest(args, i, file, format, debug) matches Err(m) ==> m.len() >= usage().len() && m.skip(
            m.len() - usage().len(),
        ) == usage(),
        parse_rest(args, i, file, format, debug) matches Ok((f, _, _)) ==> (file == Some(f) || exists|j: int|
            i <= j < args.len() && args[j] == f),
    decreases args.len() - i,
{
    if 0 <= i < args.len() {
        let a = args[i];
        if a == "--format"@ {
            if i + 1 < args.len() {
                if args[i + 1] == "json"@ {
                    lemma_rest_errors_end_with_usage(args, i + 2, file, OutputFormat::Json, debug);
                } else if args[i + 1] == "md"@ {
                    lemma_rest_errors_end_with_usage(args, i + 2, file, OutputFormat::Markdown, debug);
                }
            }
        } else if a == "--debug"@ {
            lemma_rest_errors_end_with_usage(args, i + 1, file, format, true);
        } else if !(a.len() > 0 && a[0] == '-') && file is None {
            lemma_rest_errors_end_with_usage(args, i + 1, Some(a), format, debug);
            assert(args[i] == a);
        }
    }
    match parse_rest(args, i, file, format, debug) {
        Err(m) => {
            assert(m.skip(m.len() - usage().len()) =~= usage());
        },
        Ok(_) => {},
    }
}

/// Every refusal of the arguments ends with the usage banner, and an
/// accepted invocation starts with `parse` and names a file that is one of
/// the arguments.
pub proof fn lemma_argument_errors_carry_usage(args: Seq<Seq<char>>)
    ensures
        parse_args_spec(args) matches Err(m) ==> m.len() >= usage().len() && m.skip(m.len() - usage().len())
            == usage(),
        parse_args_spec(args) matches Ok((f, _, _)) ==> args[0] == "parse"@ && exists|j: int|
            1 <= j < args.len() && args[j] == f,
{
    if args.len() > 0 && args[0] == "parse"@ {
        lemma_rest_errors_end_with_usage(args, 1, None, OutputFormat::Json, false);
    }
    match parse_args_spec(args) {
        Err(m) => {
            assert(m.skip(m.len() - usage().len()) =~= usage());
        },
        Ok(_) => {},
    }
}

} // verus!
