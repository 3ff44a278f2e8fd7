//! Command-line parsing.
use vstd::prelude::*;
use crate::color::{parse_color, parse_color_spec, Color};
use crate::text::{
    chars_eq_str, chars_of, float_literal_check, is_float_literal, parse_unsigned,
    parse_unsigned_chars, push_str, split_chars, split_on, str_debug, string_from_chars,
    string_views, trim, trim_chars, views,
};

verus! {

#[derive(Debug, Clone, Copy, PartialEq, Eq, Structural)]
pub enum Command {
    Line,
    Lines,
    Scatter,
    Bar,
    Hist,
    Count,
}

/// Space on the four sides of a chart (margin outside the frame, padding inside it).
#[derive(Debug, Clone, Copy, PartialEq, Eq, Structural)]
pub struct Sides {
    pub top: usize,
    pub right: usize,
    pub bottom: usize,
    pub left: usize,
}

impl Sides {
    /// The same amount on every side.
    pub fn all(n: usize) -> (s: Sides)
        ensures
            s == (Sides { top: n, right: n, bottom: n, left: n }),
    {
        Sides { top: n, right: n, bottom: n, left: n }
    }

    /// Top, right, bottom and left, in that order.
    pub fn new(top: usize, right: usize, bottom: usize, left: usize) -> (s: Sides)
        ensures
            s == (Sides { top, right, bottom, left }),
    {
        Sides { top, right, bottom, left }
    }
}

/// Where the chart is written.
#[derive(Debug, Clone, PartialEq)]
pub enum Output {
    Stderr,
    Stdout,
    File(String),
}

/// `Output` as a value: the file name by its characters.
pub enum OutputSpec {
    Stderr,
    Stdout,
    File(Seq<char>),
}

impl Output {
    pub open spec fn model(&self) -> OutputSpec {
        match self {
            Output::Stderr => OutputSpec::Stderr,
            Output::Stdout => OutputSpec::Stdout,
            Output::File(f) => OutputSpec::File(f@),
        }
    }
}

/// The parsed command line. Axis limits and histogram filters are kept as
/// the text the user gave, checked to be numbers that `f64::from_str` accepts.
#[derive(Debug)]
pub struct Options {
    pub command: Command,
    pub delimiter: char,
    pub has_headers: bool,
    pub title: Option<String>,
    pub width: Option<usize>,
    pub height: Option<usize>,
    pub output: Output,
    pub files: Vec<String>,
    pub nbins: Option<usize>,
    pub xlabel: Option<String>,
    pub ylabel: Option<String>,
    pub transpose: bool,
    pub color: Option<Color>,
    pub force_color: bool,
    pub monochrome: bool,
    pub grid: bool,
    pub xlim: Option<(String, String)>,
    pub ylim: Option<(String, String)>,
    pub log_scale: bool,
    pub gt: Option<String>,
    pub lt: Option<String>,
    pub margin: Option<Sides>,
    pub padding: Option<Sides>,
}

/// `Options` as a value, strings by their characters.
pub struct OptsSpec {
    pub command: Command,
    pub delimiter: char,
    pub has_headers: bool,
    pub title: Option<Seq<char>>,
    pub width: Option<usize>,
    pub height: Option<usize>,
    pub output: OutputSpec,
    pub files: Seq<Seq<char>>,
    pub nbins: Option<usize>,
    pub xlabel: Option<Seq<char>>,
    pub ylabel: Option<Seq<char>>,
    pub transpose: bool,
    pub color: Option<Color>,
    pub force_color: bool,
    pub monochrome: bool,
    pub grid: bool,
    pub xlim: Option<(Seq<char>, Seq<char>)>,
    pub ylim: Option<(Seq<char>, Seq<char>)>,
    pub log_scale: bool,
    pub gt: Option<Seq<char>>,
    pub lt: Option<Seq<char>>,
    pub margin: Option<Sides>,
    pub padding: Option<Sides>,
}

pub open spec fn opt_view(o: Option<String>) -> Option<Seq<char>> {
    match o {
        Some(s) => Some(s@),
        None => None,
    }
}

pub open spec fn pair_view(o: Option<(String, String)>) -> Option<(Seq<char>, Seq<char>)> {
    match o {
        Some(p) => Some((p.0@, p.1@)),
        None => None,
    }
}

impl Options {
    pub open spec fn model(&self) -> OptsSpec {
        OptsSpec {
            command: self.command,
            delimiter: self.delimiter,
            has_headers: self.has_headers,
            title: opt_view(self.title),
            width: self.width,
            height: self.height,
            output: self.output.model(),
            files: string_views(self.files@),
            nbins: self.nbins,
            xlabel: opt_view(self.xlabel),
            ylabel: opt_view(self.ylabel),
            transpose: self.transpose,
            color: self.color,
            force_color: self.force_color,
            monochrome: self.monochrome,
            grid: self.grid,
            xlim: pair_view(self.xlim),
            ylim: pair_view(self.ylim),
            log_scale: self.log_scale,
            gt: opt_view(self.gt),
            lt: opt_view(self.lt),
            margin: self.margin,
            padding: self.padding,
        }
    }
}

/// The options before any flag: tab-delimited, no header, output to stderr.
pub open spec fn default_opts(command: Command) -> OptsSpec {
    OptsSpec {
        command,
        delimiter: '\t',
        has_headers: false,
        title: None,
        width: None,
        height: None,
        output: OutputSpec::Stderr,
        files: Seq::empty(),
        nbins: None,
        xlabel: None,
        ylabel: None,
        transpose: false,
        color: None,
        force_color: false,
        monochrome: false,
        grid: false,
        xlim: None,
        ylim: None,
        log_scale: false,
        gt: None,
        lt: None,
        margin: None,
        padding: None,
    }
}

impl Default for Options {
    fn default() -> (o: Self)
        ensures
            o.model() == default_opts(Command::Line),
    {
        let o = Options {
            command: Command::Line,
            delimiter: '\t',
            has_headers: false,
            title: None,
            width: None,
            height: None,
            output: Output::Stderr,
            files: Vec::new(),
            nbins: None,
            xlabel: None,
            ylabel: None,
            transpose: false,
            color: None,
            force_color: false,
            monochrome: false,
            grid: false,
            xlim: None,
            ylim: None,
            log_scale: false,
            gt: None,
            lt: None,
            margin: None,
            padding: None,
        };
        proof { assert(o.model().files =~= Seq::<Seq<char>>::empty()); }
        o
    }
}

pub const USAGE: &'static str = "\
Program: fu (brutally fast terminal plotting)
Source:  https://github.com/CryptArtificer/fu

Usage:   fu <command> [options] <in.tsv>

Commands:
    lineplot   line l  draw a line chart
    lineplots  lines   draw multi-series line chart
    scatter    s       draw a scatter plot
    barplot    bar     draw a horizontal bar chart
    histogram  hist    draw a histogram
    count      c       count occurrences and bar chart

General options:
    -d DELIM            field delimiter (default: tab)
    -H                  input has header row
    -T                  transpose rows and columns
    -t TITLE            title above plot
    -w WIDTH            plot width in characters (default: 40)
    -h HEIGHT           plot height in rows (default: 15)
    -n BINS             number of histogram bins (default: 10)
    -o [FILE]           output to file or stdout (default: stderr)
    -c COLOR            drawing color (name or 0-255)
    -C                  force color output in pipes
    -M                  monochrome (no color)
    --grid              show grid lines
    --xlim MIN,MAX      x-axis range limits
    --ylim MIN,MAX      y-axis range limits
    --log               logarithmic bin edges (histogram)
    --gt N              exclude values <= N (histogram filter)
    --lt N              exclude values >= N (histogram filter)
    -m MARGIN           per-side margin: 1, 2, or 4 values
    --padding PAD       per-side padding: 1, 2, or 4 values
    --xlabel LABEL      x-axis label
    --ylabel LABEL      y-axis label
    --help              print help menu";

pub const USAGE_LINE: &'static str = "\
Usage: fu line [options] <in.tsv>

Options for line:
    (none yet)

Common options:
    -d DELIM            field delimiter (default: tab)
    -H                  input has header row
    -t TITLE            title above plot
    -w WIDTH            plot width in characters (default: 40)
    -h HEIGHT           plot height in rows (default: 15)
    -o [FILE]           output to file or stdout (default: stderr)
    --help              print sub-command help menu";

/// The general help text.
pub fn usage() -> (s: String)
    ensures
        s@ == USAGE@,
{
    string_from_chars(&chars_of(USAGE))
}

/// The help text of the `line` command.
pub fn usage_line() -> (s: String)
    ensures
        s@ == USAGE_LINE@,
{
    string_from_chars(&chars_of(USAGE_LINE))
}

/// The command a name selects.
pub open spec fn command_of(name: Seq<char>) -> Option<Command> {
    if name == "line"@ || name == "lineplot"@ || name == "l"@ {
        Some(Command::Line)
    } else if name == "lines"@ || name == "lineplots"@ {
        Some(Command::Lines)
    } else if name == "scatter"@ || name == "s"@ {
        Some(Command::Scatter)
    } else if name == "bar"@ || name == "barplot"@ {
        Some(Command::Bar)
    } else if name == "hist"@ || name == "histogram"@ {
        Some(Command::Hist)
    } else if name == "count"@ || name == "c"@ {
        Some(Command::Count)
    } else {
        None
    }
}

pub open spec fn starts_with_dash(s: Seq<char>) -> bool {
    s.len() > 0 && s[0] == '-'
}

/// What `--xlim`/`--ylim` accept: two comma-separated numbers (trimmed).
pub open spec fn range_spec(val: Seq<char>, flag: Seq<char>) -> Result<(Seq<char>, Seq<char>), Seq<char>> {
    let parts = split_on(val, ',');
    if parts.len() != 2 {
        Err(flag + " requires two comma-separated numbers (e.g. 0,100)"@)
    } else if !is_float_literal(trim(parts[0])) {
        Err(flag + ": cannot parse "@ + str_debug(trim(parts[0])) + " as number"@)
    } else if !is_float_literal(trim(parts[1])) {
        Err(flag + ": cannot parse "@ + str_debug(trim(parts[1])) + " as number"@)
    } else {
        Ok((trim(parts[0]), trim(parts[1])))
    }
}

/// The counts of comma-separated pieces, each trimmed; none if one is not a count.
pub open spec fn counts(parts: Seq<Seq<char>>) -> Option<Seq<usize>>
    decreases parts.len(),
{
    if parts.len() == 0 {
        Some(Seq::empty())
    } else {
        match (counts(parts.drop_last()), parse_unsigned(trim(parts.last()), usize::MAX as nat)) {
            (Some(v), Some(n)) => Some(v.push(n as usize)),
            _ => None,
        }
    }
}

/// What `-m` and `--padding` accept: one count for every side, two for the
/// top and bottom then the left and right, or four for the top, right,
/// bottom and left, separated by commas.
pub open spec fn sides_spec(val: Seq<char>, flag: Seq<char>) -> Result<Sides, Seq<char>> {
    match counts(split_on(val, ',')) {
        None => Err(flag + " values must be non-negative integers"@),
        Some(v) => if v.len() == 1 {
            Ok(Sides { top: v[0], right: v[0], bottom: v[0], left: v[0] })
        } else if v.len() == 2 {
            Ok(Sides { top: v[0], right: v[1], bottom: v[0], left: v[1] })
        } else if v.len() == 4 {
            Ok(Sides { top: v[0], right: v[1], bottom: v[2], left: v[3] })
        } else {
            Err(flag + " takes 1, 2, or 4 comma-separated values"@)
        },
    }
}

/// The message for a flag whose value is missing.
pub open spec fn missing_value(flag: Seq<char>) -> Seq<char> {
    flag + " requires an argument"@
}

/// Whether `a` is one of the two spellings of a flag.
pub open spec fn is_flag(a: Seq<char>, short: Seq<char>, long: Seq<char>) -> bool {
    a == short || a == long
}

/// The kinds of command-line arguments after the command name.
pub enum FlagKind {
    Help,
    Delimiter,
    Headers,
    Title,
    Width,
    Height,
    Transpose,
    XLabel,
    YLabel,
    Color,
    XLim,
    YLim,
    Grid,
    ColorOutput,
    Monochrome,
    NBins,
    Log,
    Gt,
    Lt,
    Margin,
    Padding,
    Output,
    File,
    Unknown,
}

/// What kind of argument `a` is.
pub open spec fn flag_kind(a: Seq<char>) -> FlagKind {
    if a == "--help"@ { FlagKind::Help }
    else if is_flag(a, "-d"@, "--delimiter"@) { FlagKind::Delimiter }
    else if is_flag(a, "-H"@, "--headers"@) { FlagKind::Headers }
    else if is_flag(a, "-t"@, "--title"@) { FlagKind::Title }
    else if is_flag(a, "-w"@, "--width"@) { FlagKind::Width }
    else if is_flag(a, "-h"@, "--height"@) { FlagKind::Height }
    else if is_flag(a, "-T"@, "--transpose"@) { FlagKind::Transpose }
    else if a == "--xlabel"@ { FlagKind::XLabel }
    else if a == "--ylabel"@ { FlagKind::YLabel }
    else if is_flag(a, "-c"@, "--color"@) { FlagKind::Color }
    else if a == "--xlim"@ { FlagKind::XLim }
    else if a == "--ylim"@ { FlagKind::YLim }
    else if a == "--grid"@ { FlagKind::Grid }
    else if is_flag(a, "-C"@, "--color-output"@) { FlagKind::ColorOutput }
    else if is_flag(a, "-M"@, "--monochrome"@) { FlagKind::Monochrome }
    else if is_flag(a, "-n"@, "--nbins"@) { FlagKind::NBins }
    else if a == "--log"@ { FlagKind::Log }
    else if a == "--gt"@ { FlagKind::Gt }
    else if a == "--lt"@ { FlagKind::Lt }
    else if is_flag(a, "-m"@, "--margin"@) { FlagKind::Margin }
    else if a == "--padding"@ { FlagKind::Padding }
    else if is_flag(a, "-o"@, "--output"@) { FlagKind::Output }
    else if !starts_with_dash(a) { FlagKind::File }
    else { FlagKind::Unknown }
}

/// What reading the argument `a` does to the options `m`, given the argument
/// after it (if there is one): how many arguments it takes and the options
/// after it, or the error.
pub open spec fn scan_step(a: Seq<char>, next: Option<Seq<char>>, m: OptsSpec) -> Result<(int, OptsSpec), Seq<char>> {
    let has_val = next is Some;
    let val = next->0;
    match flag_kind(a) {
        FlagKind::Help => Err(USAGE_LINE@),
        FlagKind::Delimiter => if !has_val { Err(missing_value("-d"@)) } else {
            Ok((2int, OptsSpec { delimiter: if val.len() > 0 { val[0] } else { '\t' }, ..m }))
        },
        FlagKind::Headers => Ok((1int, OptsSpec { has_headers: true, ..m })),
        FlagKind::Title => if !has_val { Err(missing_value("-t"@)) } else {
            Ok((2int, OptsSpec { title: Some(val), ..m }))
        },
        FlagKind::Width => if !has_val { Err(missing_value("-w"@)) } else {
            match parse_unsigned(val, usize::MAX as nat) {
                Some(n) => Ok((2int, OptsSpec { width: Some(n as usize), ..m })),
                None => Err("-w must be a positive integer"@),
            }
        },
        FlagKind::Height => if !has_val { Err(missing_value("-h"@)) } else {
            match parse_unsigned(val, usize::MAX as nat) {
                Some(n) => Ok((2int, OptsSpec { height: Some(n as usize), ..m })),
                None => Err("-h must be a positive integer"@),
            }
        },
        FlagKind::Transpose => Ok((1int, OptsSpec { transpose: true, ..m })),
        FlagKind::XLabel => if !has_val { Err(missing_value("--xlabel"@)) } else {
            Ok((2int, OptsSpec { xlabel: Some(val), ..m }))
        },
        FlagKind::YLabel => if !has_val { Err(missing_value("--ylabel"@)) } else {
            Ok((2int, OptsSpec { ylabel: Some(val), ..m }))
        },
        FlagKind::Color => if !has_val { Err(missing_value("-c"@)) } else {
            match parse_color_spec(val) {
                Ok(c) => Ok((2int, OptsSpec { color: Some(c), ..m })),
                Err(e) => Err(e),
            }
        },
        FlagKind::XLim => if !has_val { Err(missing_value("--xlim"@)) } else {
            match range_spec(val, "--xlim"@) {
                Ok(r) => Ok((2int, OptsSpec { xlim: Some(r), ..m })),
                Err(e) => Err(e),
            }
        },
        FlagKind::YLim => if !has_val { Err(missing_value("--ylim"@)) } else {
            match range_spec(val, "--ylim"@) {
                Ok(r) => Ok((2int, OptsSpec { ylim: Some(r), ..m })),
                Err(e) => Err(e),
            }
        },
        FlagKind::Grid => Ok((1int, OptsSpec { grid: true, ..m })),
        FlagKind::ColorOutput => Ok((1int, OptsSpec { force_color: true, ..m })),
        FlagKind::Monochrome => Ok((1int, OptsSpec { monochrome: true, ..m })),
        FlagKind::NBins => if !has_val { Err(missing_value("-n"@)) } else {
            match parse_unsigned(val, usize::MAX as nat) {
                Some(n) => Ok((2int, OptsSpec { nbins: Some(n as usize), ..m })),
                None => Err("-n must be a positive integer"@),
            }
        },
        FlagKind::Log => Ok((1int, OptsSpec { log_scale: true, ..m })),
        FlagKind::Gt => if !has_val { Err(missing_value("--gt"@)) } else if is_float_literal(val) {
            Ok((2int, OptsSpec { gt: Some(val), ..m }))
        } else {
            Err("--gt must be a number"@)
        },
        FlagKind::Lt => if !has_val { Err(missing_value("--lt"@)) } else if is_float_literal(val) {
            Ok((2int, OptsSpec { lt: Some(val), ..m }))
        } else {
            Err("--lt must be a number"@)
        },
        FlagKind::Margin => if !has_val { Err(missing_value("-m"@)) } else {
            match sides_spec(val, "-m"@) {
                Ok(s) => Ok((2int, OptsSpec { margin: Some(s), ..m })),
                Err(e) => Err(e),
            }
        },
        FlagKind::Padding => if !has_val { Err(missing_value("--padding"@)) } else {
            match sides_spec(val, "--padding"@) {
                Ok(s) => Ok((2int, OptsSpec { padding: Some(s), ..m })),
                Err(e) => Err(e),
            }
        },
        FlagKind::Output => if has_val && !starts_with_dash(val) {
            Ok((2int, OptsSpec {
                output: if val == "-"@ { OutputSpec::Stdout } else { OutputSpec::File(val) },
                ..m
            }))
        } else {
            Ok((1int, OptsSpec { output: OutputSpec::Stdout, ..m }))
        },
        FlagKind::File => Ok((1int, OptsSpec { files: m.files.push(a), ..m })),
        FlagKind::Unknown => Err("unknown option: "@ + a),
    }
}

/// The argument after position `i`, if there is one.
pub open spec fn next_arg(args: Seq<Seq<char>>, i: int) -> Option<Seq<char>> {
    if i + 1 < args.len() { Some(args[i + 1]) } else { None }
}

/// The options after reading `args[i..]` from the state `m`, or the first error.
pub open spec fn scan(args: Seq<Seq<char>>, i: int, m: OptsSpec) -> Result<OptsSpec, Seq<char>>
    decreases args.len() - i,
{
    if i < 0 || i >= args.len() {
        Ok(m)
    } else {
        match scan_step(args[i], next_arg(args, i), m) {
            Ok((n, m2)) => scan(args, i + n, m2),
            Err(e) => Err(e),
        }
    }
}

fn flag_kind_exec(a: &Vec<char>) -> (k: FlagKind)
    ensures
        k == flag_kind(a@),
{
    if chars_eq_str(a, "--help") { FlagKind::Help }
    else if chars_eq_str(a, "-d") || chars_eq_str(a, "--delimiter") { FlagKind::Delimiter }
    else if chars_eq_str(a, "-H") || chars_eq_str(a, "--headers") { FlagKind::Headers }
    else if chars_eq_str(a, "-t") || chars_eq_str(a, "--title") { FlagKind::Title }
    else if chars_eq_str(a, "-w") || chars_eq_str(a, "--width") { FlagKind::Width }
    else if chars_eq_str(a, "-h") || chars_eq_str(a, "--height") { FlagKind::Height }
    else if chars_eq_str(a, "-T") || chars_eq_str(a, "--transpose") { FlagKind::Transpose }
    else if chars_eq_str(a, "--xlabel") { FlagKind::XLabel }
    else if chars_eq_str(a, "--ylabel") { FlagKind::YLabel }
    else if chars_eq_str(a, "-c") || chars_eq_str(a, "--color") { FlagKind::Color }
    else if chars_eq_str(a, "--xlim") { FlagKind::XLim }
    else if chars_eq_str(a, "--ylim") { FlagKind::YLim }
    else if chars_eq_str(a, "--grid") { FlagKind::Grid }
    else if chars_eq_str(a, "-C") || chars_eq_str(a, "--color-output") { FlagKind::ColorOutput }
    else if chars_eq_str(a, "-M") || chars_eq_str(a, "--monochrome") { FlagKind::Monochrome }
    else if chars_eq_str(a, "-n") || chars_eq_str(a, "--nbins") { FlagKind::NBins }
    else if chars_eq_str(a, "--log") { FlagKind::Log }
    else if chars_eq_str(a, "--gt") { FlagKind::Gt }
    else if chars_eq_str(a, "--lt") { FlagKind::Lt }
    else if chars_eq_str(a, "-m") || chars_eq_str(a, "--margin") { FlagKind::Margin }
    else if chars_eq_str(a, "--padding") { FlagKind::Padding }
    else if chars_eq_str(a, "-o") || chars_eq_str(a, "--output") { FlagKind::Output }
    else if !(a.len() > 0 && a[0] == '-') { FlagKind::File }
    else { FlagKind::Unknown }
}

/// What `parse_from` returns for the arguments (without the program name).
pub open spec fn parse_spec(args: Seq<Seq<char>>) -> Result<OptsSpec, Seq<char>> {
    if args.len() == 0 || args[0] == "--help"@ {
        Err(USAGE@)
    } else {
        match command_of(args[0]) {
            None => Err("unknown command: "@ + args[0] + "\n\n"@ + USAGE@),
            Some(c) => scan(args, 1, default_opts(c)),
        }
    }
}


/// The argument at `i`, or the error that the flag `flag` lacks its value.
pub fn arg_value(args: &Vec<String>, i: usize, flag: &str) -> (r: Result<String, String>)
    ensures
        i < args@.len() ==> (r matches Ok(v) && v@ == args@[i as int]@),
        i >= args@.len() ==> (r matches Err(e) && e@ == missing_value(flag@)),
{
    if i < args.len() {
        Ok(args[i].clone())
    } else {
        let mut m: Vec<char> = Vec::new();
        push_str(&mut m, flag);
        push_str(&mut m, " requires an argument");
        Err(string_from_chars(&m))
    }
}

/// Parse `MIN,MAX` into its two trimmed numbers (see `range_spec`).
fn parse_range(s: &str, flag: &str) -> (r: Result<(String, String), String>)
    ensures
        r matches Ok(p) ==> range_spec(s@, flag@) == Ok::<(Seq<char>, Seq<char>), Seq<char>>((p.0@, p.1@)),
        r matches Err(e) ==> range_spec(s@, flag@) == Err::<(Seq<char>, Seq<char>), Seq<char>>(e@),
{
    let v = chars_of(s);
    let parts = split_chars(&v, ',');
    if parts.len() != 2 {
        let mut m: Vec<char> = Vec::new();
        push_str(&mut m, flag);
        push_str(&mut m, " requires two comma-separated numbers (e.g. 0,100)");
        return Err(string_from_chars(&m));
    }
    proof {
        assert(views(parts@)[0] == parts@[0]@);
        assert(views(parts@)[1] == parts@[1]@);
    }
    let lo = trim_chars(&parts[0]);
    let hi = trim_chars(&parts[1]);
    if !float_literal_check(&lo) {
        return Err(cannot_parse(flag, &lo));
    }
    if !float_literal_check(&hi) {
        return Err(cannot_parse(flag, &hi));
    }
    Ok((string_from_chars(&lo), string_from_chars(&hi)))
}

/// Parse `-m`/`--padding` values (see `sides_spec`).
fn parse_sides(s: &str, flag: &str) -> (r: Result<Sides, String>)
    ensures
        r matches Ok(p) ==> sides_spec(s@, flag@) == Ok::<Sides, Seq<char>>(p),
        r matches Err(e) ==> sides_spec(s@, flag@) == Err::<Sides, Seq<char>>(e@),
{
    let v = chars_of(s);
    let parts = split_chars(&v, ',');
    let ghost pv = views(parts@);
    let mut vals: Vec<usize> = Vec::new();
    let mut k: usize = 0;
    while k < parts.len()
        invariant
            k <= parts@.len(),
            pv == views(parts@),
            pv == split_on(s@, ','),
            counts(pv.take(k as int)) == Some(vals@),
        decreases parts.len() - k,
    {
        proof {
            assert(pv.take(k + 1).drop_last() =~= pv.take(k as int));
            assert(pv.take(k + 1).last() == parts@[k as int]@);
        }
        let t = trim_chars(&parts[k]);
        match parse_unsigned_chars(&t, usize::MAX as u64) {
            Some(n) => {
                vals.push(n as usize);
            },
            None => {
                proof {
                    let ks = pv.take(k + 1);
                    assert(counts(ks) is None);
                    lemma_counts_none_extends(pv, k as int + 1);
                    assert(pv.take(pv.len() as int) =~= pv);
                }
                let mut m: Vec<char> = Vec::new();
                push_str(&mut m, flag);
                push_str(&mut m, " values must be non-negative integers");
                return Err(string_from_chars(&m));
            },
        }
        k = k + 1;
    }
    proof { assert(pv.take(parts@.len() as int) =~= pv); }
    if vals.len() == 1 {
        Ok(Sides { top: vals[0], right: vals[0], bottom: vals[0], left: vals[0] })
    } else if vals.len() == 2 {
        Ok(Sides { top: vals[0], right: vals[1], bottom: vals[0], left: vals[1] })
    } else if vals.len() == 4 {
        Ok(Sides { top: vals[0], right: vals[1], bottom: vals[2], left: vals[3] })
    } else {
        let mut m: Vec<char> = Vec::new();
        push_str(&mut m, flag);
        push_str(&mut m, " takes 1, 2, or 4 comma-separated values");
        Err(string_from_chars(&m))
    }
}

/// Once a prefix of the pieces holds a non-count, so does every longer prefix.
proof fn lemma_counts_none_extends(parts: Seq<Seq<char>>, k: int)
    requires
        0 <= k <= parts.len(),
        counts(parts.take(k)) is None,
    ensures
        counts(parts.take(parts.len() as int)) is None,
    decreases parts.len() - k,
{
    if k < parts.len() {
        assert(parts.take(k + 1).drop_last() =~= parts.take(k));
        lemma_counts_none_extends(parts, k + 1);
    }
}

fn cannot_parse(flag: &str, field: &Vec<char>) -> (e: String)
    ensures
        e@ == flag@ + ": cannot parse "@ + str_debug(field@) + " as number"@,
{
    let mut m: Vec<char> = Vec::new();
    push_str(&mut m, flag);
    push_str(&mut m, ": cannot parse ");
    let f = string_from_chars(field);
    let d = crate::text::debug_string(f.as_str());
    push_str(&mut m, d.as_str());
    push_str(&mut m, " as number");
    e_from(m)
}

fn e_from(m: Vec<char>) -> (e: String)
    ensures
        e@ == m@,
{
    string_from_chars(&m)
}

fn message(text: &str) -> (e: String)
    ensures
        e@ == text@,
{
    string_from_chars(&chars_of(text))
}

fn step_switch(args: &Vec<String>, i: usize, opts: &mut Options) -> (r: Result<usize, String>)
    requires
        i < args@.len(),
        flag_kind(string_views(args@)[i as int]) is Headers || flag_kind(string_views(args@)[i as int]) is Transpose || flag_kind(string_views(args@)[i as int]) is Grid || flag_kind(string_views(args@)[i as int]) is ColorOutput || flag_kind(string_views(args@)[i as int]) is Monochrome || flag_kind(string_views(args@)[i as int]) is Log || flag_kind(string_views(args@)[i as int]) is Help || flag_kind(string_views(args@)[i as int]) is Unknown || flag_kind(string_views(args@)[i as int]) is File || flag_kind(string_views(args@)[i as int]) is Output,
    ensures
        r matches Ok(j) ==> i < j <= args@.len()
            && scan(string_views(args@), i as int, old(opts).model()) == scan(string_views(args@), j as int, final(opts).model()),
        r matches Err(e) ==> scan(string_views(args@), i as int, old(opts).model()) == Err::<OptsSpec, Seq<char>>(e@),
{
    let ghost av = string_views(args@);
    let a = chars_of(args[i].as_str());
    let n = args.len();
    let has_val = i < n - 1;
    proof {
        assert(av[i as int] == a@);
        if has_val {
            assert(av[i + 1] == args@[i + 1]@);
        }
    }
    match flag_kind_exec(&a) {
        FlagKind::Headers => {
            opts.has_headers = true;
            Ok(i + 1)
        },
        FlagKind::Transpose => {
            opts.transpose = true;
            Ok(i + 1)
        },
        FlagKind::Grid => {
            opts.grid = true;
            Ok(i + 1)
        },
        FlagKind::ColorOutput => {
            opts.force_color = true;
            Ok(i + 1)
        },
        FlagKind::Monochrome => {
            opts.monochrome = true;
            Ok(i + 1)
        },
        FlagKind::Log => {
            opts.log_scale = true;
            Ok(i + 1)
        },
        FlagKind::Help => Err(usage_line()),
        FlagKind::Unknown => {
            let mut m: Vec<char> = Vec::new();
            push_str(&mut m, "unknown option: ");
            push_str(&mut m, args[i].as_str());
            Err(string_from_chars(&m))
        },
        FlagKind::File => {
            let ghost before = opts.files@;
            opts.files.push(args[i].clone());
            proof {
                assert(string_views(opts.files@) =~= string_views(before).push(a@));
            }
            Ok(i + 1)
        },
        FlagKind::Output => {
            if has_val {
                let next = chars_of(args[i + 1].as_str());
                if !(next.len() > 0 && next[0] == '-') {
                    if chars_eq_str(&next, "-") {
                        opts.output = Output::Stdout;
                    } else {
                        opts.output = Output::File(args[i + 1].clone());
                    }
                    return Ok(i + 2);
                }
            }
            opts.output = Output::Stdout;
            Ok(i + 1)
        },
        _ => {
            proof { assert(false); }
            Err(usage_line())
        },
    }
}

fn step_text(args: &Vec<String>, i: usize, opts: &mut Options) -> (r: Result<usize, String>)
    requires
        i < args@.len(),
        flag_kind(string_views(args@)[i as int]) is Delimiter || flag_kind(string_views(args@)[i as int]) is Title || flag_kind(string_views(args@)[i as int]) is XLabel || flag_kind(string_views(args@)[i as int]) is YLabel || flag_kind(string_views(args@)[i as int]) is Width || flag_kind(string_views(args@)[i as int]) is Height || flag_kind(string_views(args@)[i as int]) is NBins,
    ensures
        r matches Ok(j) ==> i < j <= args@.len()
            && scan(string_views(args@), i as int, old(opts).model()) == scan(string_views(args@), j as int, final(opts).model()),
        r matches Err(e) ==> scan(string_views(args@), i as int, old(opts).model()) == Err::<OptsSpec, Seq<char>>(e@),
{
    let ghost av = string_views(args@);
    let a = chars_of(args[i].as_str());
    let n = args.len();
    let has_val = i < n - 1;
    proof {
        assert(av[i as int] == a@);
        if has_val {
            assert(av[i + 1] == args@[i + 1]@);
        }
    }
    match flag_kind_exec(&a) {
        FlagKind::Delimiter => {
            let val = arg_value(args, i + 1, "-d")?;
            let vc = chars_of(val.as_str());
            opts.delimiter = if vc.len() > 0 { vc[0] } else { '\t' };
            Ok(i + 2)
        },
        FlagKind::Title => {
            let val = arg_value(args, i + 1, "-t")?;
            opts.title = Some(val);
            Ok(i + 2)
        },
        FlagKind::XLabel => {
            let val = arg_value(args, i + 1, "--xlabel")?;
            opts.xlabel = Some(val);
            Ok(i + 2)
        },
        FlagKind::YLabel => {
            let val = arg_value(args, i + 1, "--ylabel")?;
            opts.ylabel = Some(val);
            Ok(i + 2)
        },
        FlagKind::Width => {
            let val = arg_value(args, i + 1, "-w")?;
            match parse_unsigned_chars(&chars_of(val.as_str()), usize::MAX as u64) {
                Some(v) => {
                    opts.width = Some(v as usize);
                    Ok(i + 2)
                },
                None => Err(message("-w must be a positive integer")),
            }
        },
        FlagKind::Height => {
            let val = arg_value(args, i + 1, "-h")?;
            match parse_unsigned_chars(&chars_of(val.as_str()), usize::MAX as u64) {
                Some(v) => {
                    opts.height = Some(v as usize);
                    Ok(i + 2)
                },
                None => Err(message("-h must be a positive integer")),
            }
        },
        FlagKind::NBins => {
            let val = arg_value(args, i + 1, "-n")?;
            match parse_unsigned_chars(&chars_of(val.as_str()), usize::MAX as u64) {
                Some(v) => {
                    opts.nbins = Some(v as usize);
                    Ok(i + 2)
                },
                None => Err(message("-n must be a positive integer")),
            }
        },
        _ => {
            proof { assert(false); }
            Err(usage_line())
        },
    }
}

fn step_checked(args: &Vec<String>, i: usize, opts: &mut Options) -> (r: Result<usize, String>)
    requires
        i < args@.len(),
        flag_kind(string_views(args@)[i as int]) is Color || flag_kind(string_views(args@)[i as int]) is XLim || flag_kind(string_views(args@)[i as int]) is YLim || flag_kind(string_views(args@)[i as int]) is Gt || flag_kind(string_views(args@)[i as int]) is Lt || flag_kind(string_views(args@)[i as int]) is Margin || flag_kind(string_views(args@)[i as int]) is Padding,
    ensures
        r matches Ok(j) ==> i < j <= args@.len()
            && scan(string_views(args@), i as int, old(opts).model()) == scan(string_views(args@), j as int, final(opts).model()),
        r matches Err(e) ==> scan(string_views(args@), i as int, old(opts).model()) == Err::<OptsSpec, Seq<char>>(e@),
{
    let ghost av = string_views(args@);
    let a = chars_of(args[i].as_str());
    let n = args.len();
    let has_val = i < n - 1;
    proof {
        assert(av[i as int] == a@);
        if has_val {
            assert(av[i + 1] == args@[i + 1]@);
        }
    }
    match flag_kind_exec(&a) {
        FlagKind::Color => {
            let val = arg_value(args, i + 1, "-c")?;
            let c = parse_color(val.as_str())?;
            opts.color = Some(c);
            Ok(i + 2)
        },
        FlagKind::XLim => {
            let val = arg_value(args, i + 1, "--xlim")?;
            let r = parse_range(val.as_str(), "--xlim")?;
            opts.xlim = Some(r);
            Ok(i + 2)
        },
        FlagKind::YLim => {
            let val = arg_value(args, i + 1, "--ylim")?;
            let r = parse_range(val.as_str(), "--ylim")?;
            opts.ylim = Some(r);
            Ok(i + 2)
        },
        FlagKind::Gt => {
            let val = arg_value(args, i + 1, "--gt")?;
            if float_literal_check(&chars_of(val.as_str())) {
                opts.gt = Some(val);
                Ok(i + 2)
            } else {
                Err(message("--gt must be a number"))
            }
        },
        FlagKind::Lt => {
            let val = arg_value(args, i + 1, "--lt")?;
            if float_literal_check(&chars_of(val.as_str())) {
                opts.lt = Some(val);
                Ok(i + 2)
            } else {
                Err(message("--lt must be a number"))
            }
        },
        FlagKind::Margin => {
            let val = arg_value(args, i + 1, "-m")?;
            let s = parse_sides(val.as_str(), "-m")?;
            opts.margin = Some(s);
            Ok(i + 2)
        },
        FlagKind::Padding => {
            let val = arg_value(args, i + 1, "--padding")?;
            let s = parse_sides(val.as_str(), "--padding")?;
            opts.padding = Some(s);
            Ok(i + 2)
        },
        _ => {
            proof { assert(false); }
            Err(usage_line())
        },
    }
}

/// Read the option at `args[i]` (and its value, if it takes one) into `opts`;
/// the index of the next option, or the error.
fn step(args: &Vec<String>, i: usize, opts: &mut Options) -> (r: Result<usize, String>)
    requires
        i < args@.len(),
    ensures
        r matches Ok(j) ==> i < j <= args@.len()
            && scan(string_views(args@), i as int, old(opts).model()) == scan(string_views(args@), j as int, final(opts).model()),
        r matches Err(e) ==> scan(string_views(args@), i as int, old(opts).model()) == Err::<OptsSpec, Seq<char>>(e@),
{
    let a = chars_of(args[i].as_str());
    proof { assert(string_views(args@)[i as int] == a@); }
    match flag_kind_exec(&a) {
        FlagKind::Delimiter | FlagKind::Title | FlagKind::XLabel | FlagKind::YLabel
        | FlagKind::Width | FlagKind::Height | FlagKind::NBins => step_text(args, i, opts),
        FlagKind::Color | FlagKind::XLim | FlagKind::YLim | FlagKind::Gt | FlagKind::Lt
        | FlagKind::Margin | FlagKind::Padding => step_checked(args, i, opts),
        _ => step_switch(args, i, opts),
    }
}

/// Parse the command-line arguments (without the program name).
pub fn parse_from(args: Vec<String>) -> (r: Result<Options, String>)
    ensures
        r matches Ok(o) ==> parse_spec(string_views(args@)) == Ok::<OptsSpec, Seq<char>>(o.model()),
        r matches Err(e) ==> parse_spec(string_views(args@)) == Err::<OptsSpec, Seq<char>>(e@),
{
    let ghost av = string_views(args@);
    if args.len() == 0 {
        return Err(usage());
    }
    let first = chars_of(args[0].as_str());
    proof { assert(av[0] == first@); }
    if chars_eq_str(&first, "--help") {
        return Err(usage());
    }
    let command = if chars_eq_str(&first, "line") || chars_eq_str(&first, "lineplot") || chars_eq_str(&first, "l") {
        Command::Line
    } else if chars_eq_str(&first, "lines") || chars_eq_str(&first, "lineplots") {
        Command::Lines
    } else if chars_eq_str(&first, "scatter") || chars_eq_str(&first, "s") {
        Command::Scatter
    } else if chars_eq_str(&first, "bar") || chars_eq_str(&first, "barplot") {
        Command::Bar
    } else if chars_eq_str(&first, "hist") || chars_eq_str(&first, "histogram") {
        Command::Hist
    } else if chars_eq_str(&first, "count") || chars_eq_str(&first, "c") {
        Command::Count
    } else {
        let mut m: Vec<char> = Vec::new();
        push_str(&mut m, "unknown command: ");
        push_str(&mut m, args[0].as_str());
        push_str(&mut m, "\n\n");
        push_str(&mut m, USAGE);
        return Err(string_from_chars(&m));
    };
    let mut opts = Options::default();
    opts.command = command;
    let mut i: usize = 1;
    while i < args.len()
        invariant
            1 <= i <= args@.len(),
            av == string_views(args@),
            command_of(av[0]) == Some(command),
            av[0] != "--help"@,
            args@.len() > 0,
            scan(av, i as int, opts.model()) == scan(av, 1, default_opts(command)),
        decreases args.len() - i,
    {
        i = step(&args, i, &mut opts)?;
    }
    Ok(opts)
}

} // verus!

verus! {

/// Scanning from position `j` never looks before `j`: changing an earlier
/// argument changes nothing.
proof fn lemma_scan_ignores_earlier(args: Seq<Seq<char>>, i: int, x: Seq<char>, j: int, m: OptsSpec)
    requires
        0 <= i < j,
        i < args.len(),
    ensures
        scan(args.update(i, x), j, m) == scan(args, j, m),
    decreases args.len() - j,
{
    let u = args.update(i, x);
    if j < args.len() {
        assert(u[j] == args[j]);
        assert(next_arg(u, j) == next_arg(args, j));
        if let Ok((n, m2)) = scan_step(args[j], next_arg(args, j), m) {
            if j + n < args.len() {
                lemma_scan_ignores_earlier(args, i, x, j + n, m2);
            }
        }
    }
}

/// The short spelling of each long flag that has one, as the usage and the
/// README pair them.
pub open spec fn short_spelling(a: Seq<char>) -> Option<Seq<char>> {
    if a == "--delimiter"@ { Some("-d"@) }
    else if a == "--headers"@ { Some("-H"@) }
    else if a == "--title"@ { Some("-t"@) }
    else if a == "--width"@ { Some("-w"@) }
    else if a == "--height"@ { Some("-h"@) }
    else if a == "--transpose"@ { Some("-T"@) }
    else if a == "--color"@ { Some("-c"@) }
    else if a == "--color-output"@ { Some("-C"@) }
    else if a == "--monochrome"@ { Some("-M"@) }
    else if a == "--nbins"@ { Some("-n"@) }
    else if a == "--margin"@ { Some("-m"@) }
    else if a == "--output"@ { Some("-o"@) }
    else { None }
}

/// What each spelling of the flags that have two spellings is, and which
/// short spelling each long one has.
pub proof fn lemma_flag_spellings()
    ensures
        flag_kind("--delimiter"@) is Delimiter,
        flag_kind("-d"@) is Delimiter,
        short_spelling("--delimiter"@) == Some("-d"@),
        flag_kind("--headers"@) is Headers,
        flag_kind("-H"@) is Headers,
        short_spelling("--headers"@) == Some("-H"@),
        flag_kind("--title"@) is Title,
        flag_kind("-t"@) is Title,
        short_spelling("--title"@) == Some("-t"@),
        flag_kind("--width"@) is Width,
        flag_kind("-w"@) is Width,
        short_spelling("--width"@) == Some("-w"@),
        flag_kind("--height"@) is Height,
        flag_kind("-h"@) is Height,
        short_spelling("--height"@) == Some("-h"@),
        flag_kind("--transpose"@) is Transpose,
        flag_kind("-T"@) is Transpose,
        short_spelling("--transpose"@) == Some("-T"@),
        flag_kind("--color"@) is Color,
        flag_kind("-c"@) is Color,
        short_spelling("--color"@) == Some("-c"@),
        flag_kind("--color-output"@) is ColorOutput,
        flag_kind("-C"@) is ColorOutput,
        short_spelling("--color-output"@) == Some("-C"@),
        flag_kind("--monochrome"@) is Monochrome,
        flag_kind("-M"@) is Monochrome,
        short_spelling("--monochrome"@) == Some("-M"@),
        flag_kind("--nbins"@) is NBins,
        flag_kind("-n"@) is NBins,
        short_spelling("--nbins"@) == Some("-n"@),
        flag_kind("--margin"@) is Margin,
        flag_kind("-m"@) is Margin,
        short_spelling("--margin"@) == Some("-m"@),
        flag_kind("--output"@) is Output,
        flag_kind("-o"@) is Output,
        short_spelling("--output"@) == Some("-o"@),
{
    reveal_strlit("--help");
    assert("--help"@.len() == 6 && "--help"@[2] == 'h');
    reveal_strlit("-d");
    assert("-d"@.len() == 2 && "-d"@[1] == 'd');
    reveal_strlit("--delimiter");
    assert("--delimiter"@.len() == 11 && "--delimiter"@[2] == 'd');
    reveal_strlit("-H");
    assert("-H"@.len() == 2 && "-H"@[1] == 'H');
    reveal_strlit("--headers");
    assert("--headers"@.len() == 9 && "--headers"@[2] == 'h');
    reveal_strlit("-t");
    assert("-t"@.len() == 2 && "-t"@[1] == 't');
    reveal_strlit("--title");
    assert("--title"@.len() == 7 && "--title"@[2] == 't');
    reveal_strlit("-w");
    assert("-w"@.len() == 2 && "-w"@[1] == 'w');
    reveal_strlit("--width");
    assert("--width"@.len() == 7 && "--width"@[2] == 'w');
    reveal_strlit("-h");
    assert("-h"@.len() == 2 && "-h"@[1] == 'h');
    reveal_strlit("--height");
    assert("--height"@.len() == 8 && "--height"@[2] == 'h');
    reveal_strlit("-T");
    assert("-T"@.len() == 2 && "-T"@[1] == 'T');
    reveal_strlit("--transpose");
    assert("--transpose"@.len() == 11 && "--transpose"@[2] == 't');
    reveal_strlit("--xlabel");
    assert("--xlabel"@.len() == 8 && "--xlabel"@[2] == 'x');
    reveal_strlit("--ylabel");
    assert("--ylabel"@.len() == 8 && "--ylabel"@[2] == 'y');
    reveal_strlit("-c");
    assert("-c"@.len() == 2 && "-c"@[1] == 'c');
    reveal_strlit("--color");
    assert("--color"@.len() == 7 && "--color"@[2] == 'c');
    reveal_strlit("--xlim");
    assert("--xlim"@.len() == 6 && "--xlim"@[2] == 'x');
    reveal_strlit("--ylim");
    assert("--ylim"@.len() == 6 && "--ylim"@[2] == 'y');
    reveal_strlit("--grid");
    assert("--grid"@.len() == 6 && "--grid"@[2] == 'g');
    reveal_strlit("-C");
    assert("-C"@.len() == 2 && "-C"@[1] == 'C');
    reveal_strlit("--color-output");
    assert("--color-output"@.len() == 14 && "--color-output"@[2] == 'c');
    reveal_strlit("-M");
    assert("-M"@.len() == 2 && "-M"@[1] == 'M');
    reveal_strlit("--monochrome");
    assert("--monochrome"@.len() == 12 && "--monochrome"@[2] == 'm');
    reveal_strlit("-n");
    assert("-n"@.len() == 2 && "-n"@[1] == 'n');
    reveal_strlit("--nbins");
    assert("--nbins"@.len() == 7 && "--nbins"@[2] == 'n');
    reveal_strlit("--log");
    assert("--log"@.len() == 5 && "--log"@[2] == 'l');
    reveal_strlit("--gt");
    assert("--gt"@.len() == 4 && "--gt"@[2] == 'g');
    reveal_strlit("--lt");
    assert("--lt"@.len() == 4 && "--lt"@[2] == 'l');
    reveal_strlit("-m");
    assert("-m"@.len() == 2 && "-m"@[1] == 'm');
    reveal_strlit("--margin");
    assert("--margin"@.len() == 8 && "--margin"@[2] == 'm');
    reveal_strlit("--padding");
    assert("--padding"@.len() == 9 && "--padding"@[2] == 'p');
    reveal_strlit("-o");
    assert("-o"@.len() == 2 && "-o"@[1] == 'o');
    reveal_strlit("--output");
    assert("--output"@.len() == 8 && "--output"@[2] == 'o');
}

/// Each long flag is the same flag as its short spelling.
proof fn lemma_long_flag_kind(a: Seq<char>)
    requires
        short_spelling(a) is Some,
    ensures
        flag_kind(a) == flag_kind(short_spelling(a)->0),
        !(flag_kind(a) is File) && !(flag_kind(a) is Unknown),
{
    lemma_flag_spellings();
}

/// Two arguments of the same kind, other than a file name or an unknown
/// option, do the same to the options.
proof fn lemma_same_kind_same_step(a: Seq<char>, b: Seq<char>, next: Option<Seq<char>>, m: OptsSpec)
    requires
        flag_kind(a) == flag_kind(b),
        !(flag_kind(a) is File),
        !(flag_kind(a) is Unknown),
    ensures
        scan_step(a, next, m) == scan_step(b, next, m),
{
}

/// Long flags mean what their short spellings mean: where the scan meets a
/// long flag, writing its short spelling there instead gives the same
/// result, for every argument list and every state of the options.
pub proof fn lemma_long_flags_mean_short(args: Seq<Seq<char>>, i: int, m: OptsSpec)
    requires
        0 <= i < args.len(),
        short_spelling(args[i]) is Some,
    ensures
        scan(args.update(i, short_spelling(args[i])->0), i, m) == scan(args, i, m),
{
    let s = short_spelling(args[i])->0;
    let u = args.update(i, s);
    lemma_long_flag_kind(args[i]);
    assert(u[i] == s);
    assert(next_arg(u, i) == next_arg(args, i));
    lemma_same_kind_same_step(s, args[i], next_arg(args, i), m);
    if let Ok((n, m2)) = scan_step(args[i], next_arg(args, i), m) {
        lemma_scan_ignores_earlier(args, i, s, i + n, m2);
    }
}

/// `-w`/`--width` set the width and `-h`/`--height` the height, to the
/// number given, and nothing else: after any command name, the two
/// spellings of each give the same options.
pub proof fn lemma_size_flags(c: Seq<char>, n: Seq<char>, v: nat)
    requires
        command_of(c) is Some,
        c != "--help"@,
        parse_unsigned(n, usize::MAX as nat) == Some(v),
    ensures
        parse_spec(seq![c, "-w"@, n]) matches Ok(o) && o.width == Some(v as usize) && o.height is None
            && o.command == command_of(c)->0,
        parse_spec(seq![c, "--width"@, n]) == parse_spec(seq![c, "-w"@, n]),
        parse_spec(seq![c, "-h"@, n]) matches Ok(o) && o.height == Some(v as usize) && o.width is None
            && o.command == command_of(c)->0,
        parse_spec(seq![c, "--height"@, n]) == parse_spec(seq![c, "-h"@, n]),
{
    let d = default_opts(command_of(c)->0);
    let w = seq![c, "-w"@, n];
    let wl = seq![c, "--width"@, n];
    let h = seq![c, "-h"@, n];
    let hl = seq![c, "--height"@, n];
    lemma_flag_spellings();
    assert(short_spelling("--width"@) == Some("-w"@));
    assert(short_spelling("--height"@) == Some("-h"@));
    assert(wl.update(1, "-w"@) =~= w);
    assert(hl.update(1, "-h"@) =~= h);
    lemma_long_flags_mean_short(wl, 1, d);
    lemma_long_flags_mean_short(hl, 1, d);
    lemma_flag_spellings();
    assert(scan(w, 3, OptsSpec { width: Some(v as usize), ..d }) == Ok::<OptsSpec, Seq<char>>(OptsSpec { width: Some(v as usize), ..d }));
    assert(scan(h, 3, OptsSpec { height: Some(v as usize), ..d }) == Ok::<OptsSpec, Seq<char>>(OptsSpec { height: Some(v as usize), ..d }));
}

/// The command names and their aliases, with the command each selects.
pub open spec fn command_aliases() -> Seq<(Seq<char>, Command)> {
    seq![
        ("line"@, Command::Line), ("lineplot"@, Command::Line), ("l"@, Command::Line),
        ("lines"@, Command::Lines), ("lineplots"@, Command::Lines),
        ("scatter"@, Command::Scatter), ("s"@, Command::Scatter),
        ("bar"@, Command::Bar), ("barplot"@, Command::Bar),
        ("hist"@, Command::Hist), ("histogram"@, Command::Hist),
        ("count"@, Command::Count), ("c"@, Command::Count),
    ]
}

proof fn lemma_alias_command(k: int)
    requires
        0 <= k < command_aliases().len(),
    ensures
        command_of(command_aliases()[k].0) == Some(command_aliases()[k].1),
        command_aliases()[k].0 != "--help"@,
{
    reveal_strlit("--help");
    assert("--help"@.len() == 6 && "--help"@[2] == 'h');
    reveal_strlit("line");
    assert("line"@.len() == 4 && "line"@[0] == 'l');
    reveal_strlit("lineplot");
    assert("lineplot"@.len() == 8 && "lineplot"@[0] == 'l');
    reveal_strlit("l");
    assert("l"@.len() == 1 && "l"@[0] == 'l');
    reveal_strlit("lines");
    assert("lines"@.len() == 5 && "lines"@[0] == 'l');
    reveal_strlit("lineplots");
    assert("lineplots"@.len() == 9 && "lineplots"@[0] == 'l');
    reveal_strlit("scatter");
    assert("scatter"@.len() == 7 && "scatter"@[0] == 's');
    reveal_strlit("s");
    assert("s"@.len() == 1 && "s"@[0] == 's');
    reveal_strlit("bar");
    assert("bar"@.len() == 3 && "bar"@[0] == 'b');
    reveal_strlit("barplot");
    assert("barplot"@.len() == 7 && "barplot"@[0] == 'b');
    reveal_strlit("hist");
    assert("hist"@.len() == 4 && "hist"@[0] == 'h');
    reveal_strlit("histogram");
    assert("histogram"@.len() == 9 && "histogram"@[0] == 'h');
    reveal_strlit("count");
    assert("count"@.len() == 5 && "count"@[0] == 'c');
    reveal_strlit("c");
    assert("c"@.len() == 1 && "c"@[0] == 'c');
}

/// Every alias selects its command: the command name alone gives that
/// command's default options, and with any further arguments each alias
/// of a command parses exactly as the others do.
pub proof fn lemma_command_aliases(args: Seq<Seq<char>>, k: int, j: int)
    requires
        0 <= k < command_aliases().len(),
        0 <= j < command_aliases().len(),
        command_aliases()[j].1 == command_aliases()[k].1,
        args.len() >= 1,
        args[0] == command_aliases()[k].0,
    ensures
        parse_spec(seq![command_aliases()[k].0]) == Ok::<OptsSpec, Seq<char>>(default_opts(command_aliases()[k].1)),
        parse_spec(args.update(0, command_aliases()[j].0)) == parse_spec(args),
{
    lemma_alias_command(k);
    lemma_alias_command(j);
    let u = args.update(0, command_aliases()[j].0);
    assert(u[0] == command_aliases()[j].0);
    lemma_scan_ignores_earlier(args, 0, command_aliases()[j].0, 1, default_opts(command_aliases()[k].1));
}

} // verus!

