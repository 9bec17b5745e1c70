//! The command line of the renderer: its arguments, and which parser reads a
//! data file.
//!
//! ```text
//! xforme --template TEMPLATE.xlsx --data DATA.txt [--out PREFIX] [--no-pdf]
//! ```

use vstd::prelude::*;
use crate::text::{chars_of, push_all, str_eq, string_of, win};

verus! {

/// The renderer's arguments.
#[derive(Debug, PartialEq)]
pub struct Args {
    pub template: String,
    pub data: String,
    pub out: Option<String>,
    pub pdf: bool,
}

/// The arguments, as text.
pub struct ArgsView {
    pub template: Seq<char>,
    pub data: Seq<char>,
    pub out: Option<Seq<char>>,
    pub pdf: bool,
}

impl View for Args {
    type V = ArgsView;

    open spec fn view(&self) -> ArgsView {
        ArgsView {
            template: self.template@,
            data: self.data@,
            out: match self.out {
                Some(o) => Some(o@),
                None => None,
            },
            pdf: self.pdf,
        }
    }
}

/// What the flags read so far have set.
pub struct ArgsSoFar {
    pub template: Option<Seq<char>>,
    pub data: Option<Seq<char>>,
    pub out: Option<Seq<char>>,
    pub pdf: bool,
}

/// Read the arguments from position `i` on; a later flag overrides an
/// earlier one. The error `help` asks for the usage text.
pub open spec fn scan_args(args: Seq<Seq<char>>, i: int, st: ArgsSoFar) -> Result<ArgsSoFar, Seq<char>>
    decreases args.len() - i,
{
    if i < 0 || i >= args.len() {
        Ok(st)
    } else {
        let a = args[i];
        if a == "--template"@ {
            if i + 1 < args.len() {
                scan_args(args, i + 2, ArgsSoFar { template: Some(args[i + 1]), ..st })
            } else {
                Err("--template requires a path"@)
            }
        } else if a == "--data"@ {
            if i + 1 < args.len() {
                scan_args(args, i + 2, ArgsSoFar { data: Some(args[i + 1]), ..st })
            } else {
                Err("--data requires a path"@)
            }
        } else if a == "--out"@ {
            if i + 1 < args.len() {
                scan_args(args, i + 2, ArgsSoFar { out: Some(args[i + 1]), ..st })
            } else {
                Err("--out requires a prefix"@)
            }
        } else if a == "--no-pdf"@ {
            scan_args(args, i + 1, ArgsSoFar { pdf: false, ..st })
        } else if a == "-h"@ || a == "--help"@ {
            Err("help"@)
        } else {
            Err("unexpected argument `"@ + a + "`"@)
        }
    }
}

/// The arguments of a command line whose first item is the program's name:
/// `--template` and `--data` are required, `--out` is optional, and
/// `--no-pdf` turns the PDF off.
pub open spec fn spec_parse_args(args: Seq<Seq<char>>) -> Result<ArgsView, Seq<char>> {
    match scan_args(args, 1, ArgsSoFar { template: None, data: None, out: None, pdf: true }) {
        Err(e) => Err(e),
        Ok(st) => match st.template {
            None => Err("missing required --template TEMPLATE.xlsx"@),
            Some(t) => match st.data {
                None => Err("missing required --data DATA.txt"@),
                Some(d) => Ok(ArgsView { template: t, data: d, out: st.out, pdf: st.pdf }),
            },
        },
    }
}

/// A message of one literal.
fn message(text: &str) -> (r: String)
    ensures
        r@ == text@,
{
    let mut r = String::new();
    push_all(&mut r, text);
    r
}

/// A copy of a string.
fn copy_string(s: &String) -> (r: String)
    ensures
        r@ == s@,
{
    let c = chars_of(s.as_str());
    assert(win(c@, 0, c@.len() as int) =~= c@);
    string_of(&c, 0, c.len())
}

/// Parse the command line (its first item is the program's name).
pub fn parse_args(args: &[String]) -> (r: Result<Args, String>)
    ensures
        match spec_parse_args(args@.map_values(|s: String| s@)) {
            Ok(a) => r matches Ok(x) && x@ == a,
            Err(e) => r matches Err(m) && m@ == e,
        },
{
    let ghost av = args@.map_values(|s: String| s@);
    let mut template: Option<String> = None;
    let mut data: Option<String> = None;
    let mut out: Option<String> = None;
    let mut pdf = true;
    let mut i: usize = 1;
    while i < args.len()
        invariant
            1 <= i,
            av == args@.map_values(|s: String| s@),
            scan_args(av, 1, ArgsSoFar { template: None, data: None, out: None, pdf: true })
                == scan_args(
                av,
                i as int,
                ArgsSoFar {
                    template: match template {
                        Some(t) => Some(t@),
                        None => None,
                    },
                    data: match data {
                        Some(d) => Some(d@),
                        None => None,
                    },
                    out: match out {
                        Some(o) => Some(o@),
                        None => None,
                    },
                    pdf,
                },
            ),
        decreases args@.len() - i,
    {
        let a = args[i].as_str();
        assert(av[i as int] == a@);
        if str_eq(a, "--template") {
            if i + 1 < args.len() {
                assert(av[i + 1] == args@[i + 1]@);
                template = Some(copy_string(&args[i + 1]));
                i = i + 2;
            } else {
                return Err(message("--template requires a path"));
            }
        } else if str_eq(a, "--data") {
            if i + 1 < args.len() {
                assert(av[i + 1] == args@[i + 1]@);
                data = Some(copy_string(&args[i + 1]));
                i = i + 2;
            } else {
                return Err(message("--data requires a path"));
            }
        } else if str_eq(a, "--out") {
            if i + 1 < args.len() {
                assert(av[i + 1] == args@[i + 1]@);
                out = Some(copy_string(&args[i + 1]));
                i = i + 2;
            } else {
                return Err(message("--out requires a prefix"));
            }
        } else if str_eq(a, "--no-pdf") {
            pdf = false;
            i = i + 1;
        } else if str_eq(a, "-h") || str_eq(a, "--help") {
            return Err(message("help"));
        } else {
            let mut m = String::new();
            push_all(&mut m, "unexpected argument `");
            push_all(&mut m, a);
            push_all(&mut m, "`");
            return Err(m);
        }
    }
    match template {
        None => Err(message("missing required --template TEMPLATE.xlsx")),
        Some(t) => match data {
            None => Err(message("missing required --data DATA.txt")),
            Some(d) => Ok(Args { template: t, data: d, out, pdf }),
        },
    }
}

/// How a data file is read.
#[derive(Debug, PartialEq, Eq, Structural)]
pub enum DataFormat {
    Json,
    Yaml,
    Csv,
    /// The tab-delimited record stream.
    Tab,
}

/// ASCII lower-casing.
pub open spec fn lower(c: char) -> char {
    if 'A' <= c && c <= 'Z' {
        (c as int + 32) as char
    } else {
        c
    }
}

pub open spec fn lower_all(s: Seq<char>) -> Seq<char> {
    s.map_values(|c: char| lower(c))
}

/// The format of a data file by its extension, in any case: `json`,
/// `yaml` or `yml`, `csv`; anything else (or none) is the tab-delimited
/// stream.
pub open spec fn spec_format_of_extension(ext: Option<Seq<char>>) -> DataFormat {
    match ext {
        Some(e) => {
            let l = lower_all(e);
            if l == "json"@ {
                DataFormat::Json
            } else if l == "yaml"@ || l == "yml"@ {
                DataFormat::Yaml
            } else if l == "csv"@ {
                DataFormat::Csv
            } else {
                DataFormat::Tab
            }
        },
        None => DataFormat::Tab,
    }
}

/// The format of a data file whose extension is `ext`.
pub fn format_of_extension(ext: Option<&str>) -> (r: DataFormat)
    ensures
        r == spec_format_of_extension(
            match ext {
                Some(e) => Some(e@),
                None => None,
            },
        ),
{
    match ext {
        None => DataFormat::Tab,
        Some(e) => {
            let c = chars_of(e);
            let mut l = String::new();
            let mut i: usize = 0;
            while i < c.len()
                invariant
                    i <= c@.len(),
                    l@ == lower_all(c@.subrange(0, i as int)),
                decreases c@.len() - i,
            {
                let ch = c[i];
                let lc = if 'A' <= ch && ch <= 'Z' {
                    ((ch as u32) + 32) as u8 as char
                } else {
                    ch
                };
                assert(lc == lower(ch)) by {
                    if 'A' <= ch && ch <= 'Z' {
                        assert((((ch as u32) + 32) as u8 as char) == lower(ch));
                    }
                }
                l.push(lc);
                assert(lower_all(c@.subrange(0, i + 1)) =~= lower_all(c@.subrange(0, i as int)).push(
                    lower(ch),
                ));
                i = i + 1;
            }
            assert(c@.subrange(0, c@.len() as int) =~= c@);
            let s = l.as_str();
            if str_eq(s, "json") {
                DataFormat::Json
            } else if str_eq(s, "yaml") || str_eq(s, "yml") {
                DataFormat::Yaml
            } else if str_eq(s, "csv") {
                DataFormat::Csv
            } else {
                DataFormat::Tab
            }
        },
    }
}

/// `s` occurs in `t` as a contiguous run.
pub open spec fn occurs_in(s: Seq<char>, t: Seq<char>) -> bool {
    exists|i: int| 0 <= i && i + s.len() <= t.len() && #[trigger] t.subrange(i, i + s.len()) == s
}

/// `s` holds no `/`.
pub open spec fn no_slash(s: Seq<char>) -> bool {
    forall|i: int| 0 <= i < s.len() ==> s[i] != '/'
}

/// A non-empty path with no separator (`/`, `\\`), drive colon or dot: on
/// every platform a single file name that is its own stem.
pub open spec fn plain_name(path: Seq<char>) -> bool {
    &&& path.len() > 0
    &&& forall|i: int|
        0 <= i < path.len() ==> path[i] != '/' && path[i] != '\\' && path[i] != ':' && path[i] != '.'
}

/// `Path::file_stem` of the path `path`, as UTF-8 text: `None` when the path
/// has no file name (the empty path has none). How a path splits into
/// components depends on the platform, so only what holds on every platform
/// is stated: the stem is a run of the path's text that holds no `/`, and a
/// plain file name is its own stem.
#[verifier::external_body]
fn file_stem(path: &str) -> (r: Option<String>)
    ensures
        match r {
            Some(s) => occurs_in(s@, path@) && no_slash(s@) && path@.len() > 0 && (plain_name(path@)
                ==> s@ == path@),
            None => !plain_name(path@),
        },
{
    std::path::Path::new(path).file_stem().and_then(|s| s.to_str()).map(|s| s.to_string())
}

/// The output prefix made of a data file's stem: the stem, or `output` when
/// there is none.
pub fn prefix_from_stem(stem: Option<String>) -> (r: String)
    ensures
        r@ == match stem {
            Some(s) => s@,
            None => "output"@,
        },
{
    match stem {
        Some(s) => s,
        None => {
            let mut r = String::new();
            push_all(&mut r, "output");
            r
        },
    }
}

/// The default output prefix: the data file's stem, or `output`.
pub fn default_prefix(data_path: &str) -> (r: String)
    ensures
        r@ == "output"@ || (occurs_in(r@, data_path@) && forall|i: int|
            0 <= i < r@.len() ==> r@[i] != '/'),
        data_path@.len() == 0 ==> r@ == "output"@,
        plain_name(data_path@) ==> r@ == data_path@,
{
    prefix_from_stem(file_stem(data_path))
}

} // verus!
