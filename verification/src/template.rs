//! Configuration templates and the destinations they render to.
//!
//! A template is loaded from a templates directory; alongside it live an
//! optional directory of links naming the services it affects and an
//! optional file of newline-delimited render-destination lines. Reading
//! those files is the surrounding application's work; the grammar of a
//! render-destination line, and of a whole rendered-to file, is parsed
//! and checked here.

use crate::text::{
    spec_split, spec_trim, spec_ws_tokens, split_ascii_tokens, split_on_char, str_eq, trim_ascii,
};
use vstd::prelude::*;
use vstd::string::StrSliceExecFns;

verus! {

/// A configuration template installed on the system: where its source
/// file lives, which settings extensions its body requires, which
/// services are affected when it is re-rendered, and where renders are
/// written. Affected services are recorded as canonical service file
/// paths — a template does not own the services it affects.
#[derive(Debug, Clone, PartialEq, Eq, PartialOrd, Ord, Hash)]
pub struct ConfigTemplate {
    /// The name the template is served under.
    pub name: String,
    /// The canonical path of the template file.
    pub template_filepath: String,
    /// The names of the settings extensions the template body requires.
    pub extension_requirements: Vec<String>,
    /// The canonical paths of the services to restart after a render.
    pub affected_services: Vec<String>,
    /// The locations the template renders to.
    pub render_destinations: Vec<RenderDestination>,
}

/// The mathematical view of a config template.
pub ghost struct ConfigTemplateV {
    pub name: Seq<char>,
    pub template_filepath: Seq<char>,
    pub extension_requirements: Seq<Seq<char>>,
    pub affected_services: Seq<Seq<char>>,
    pub render_destinations: Seq<RenderDestinationV>,
}

impl View for ConfigTemplate {
    type V = ConfigTemplateV;

    open spec fn view(&self) -> ConfigTemplateV {
        ConfigTemplateV {
            name: self.name@,
            template_filepath: self.template_filepath@,
            extension_requirements: self.extension_requirements.deep_view(),
            affected_services: self.affected_services.deep_view(),
            render_destinations: self.render_destinations.deep_view(),
        }
    }
}

impl DeepView for ConfigTemplate {
    type V = ConfigTemplateV;

    open spec fn deep_view(&self) -> ConfigTemplateV {
        self.view()
    }
}

/// One output location of a rendered template: a target path, a file
/// mode of exactly four octal digits, and an optional owning user and
/// group.
#[derive(Debug, Clone, PartialEq, Eq, PartialOrd, Ord, Hash)]
pub struct RenderDestination {
    /// The path the rendered file is written to.
    pub path: String,
    /// The mode the file is created with: four ASCII octal digits.
    pub mode: String,
    /// The owning user: an ID or a name, or absent for the default.
    pub user: Option<String>,
    /// The owning group: an ID or a name, or absent for the default.
    pub group: Option<String>,
}

/// The mathematical view of a render destination.
pub ghost struct RenderDestinationV {
    pub path: Seq<char>,
    pub mode: Seq<char>,
    pub user: Option<Seq<char>>,
    pub group: Option<Seq<char>>,
}

impl View for RenderDestination {
    type V = RenderDestinationV;

    open spec fn view(&self) -> RenderDestinationV {
        RenderDestinationV {
            path: self.path@,
            mode: self.mode@,
            user: match self.user {
                Some(u) => Some(u@),
                None => None,
            },
            group: match self.group {
                Some(g) => Some(g@),
                None => None,
            },
        }
    }
}

impl DeepView for RenderDestination {
    type V = RenderDestinationV;

    open spec fn deep_view(&self) -> RenderDestinationV {
        self.view()
    }
}

/// Why a render-destination line was rejected.
#[derive(Debug, Clone, PartialEq, Eq)]
pub enum ParseRenderDestinationError {
    /// The line had no tokens, or more than four.
    IncorrectArity { arity: usize },
    /// The mode was not four ASCII octal digits.
    InvalidMode { mode: String },
}

/// An ASCII octal digit.
pub open spec fn is_octal_digit(c: char) -> bool {
    '0' <= c && c <= '7'
}

/// A valid mode: exactly four ASCII octal digits.
pub open spec fn valid_mode(m: Seq<char>) -> bool {
    m.len() == 4 && forall|i: int| 0 <= i < m.len() ==> is_octal_digit(#[trigger] m[i])
}

/// The mode used when a line gives none.
pub open spec fn default_mode() -> Seq<char> {
    seq!['0', '6', '4', '4']
}

/// The token at position `i`, where a literal `-` means "use the
/// default" and counts as absent.
pub open spec fn opt_token(toks: Seq<Seq<char>>, i: int) -> Option<Seq<char>> {
    if i < toks.len() && toks[i] != seq!['-'] {
        Some(toks[i])
    } else {
        None
    }
}

/// What parsing one render-destination line yields.
pub ghost enum RenderDestinationParse {
    Destination(RenderDestinationV),
    IncorrectArity(int),
    InvalidMode(Seq<char>),
}

/// The grammar of one line: one to four whitespace-separated tokens,
/// `path [mode [user [group]]]`; `-` selects the default in the mode,
/// user and group positions; a given mode must be four octal digits.
pub open spec fn spec_parse_render_destination(s: Seq<char>) -> RenderDestinationParse {
    let toks = spec_ws_tokens(s);
    if toks.len() == 0 || toks.len() > 4 {
        RenderDestinationParse::IncorrectArity(toks.len() as int)
    } else {
        let mode = match opt_token(toks, 1) {
            Some(m) => m,
            None => default_mode(),
        };
        if !valid_mode(mode) {
            RenderDestinationParse::InvalidMode(mode)
        } else {
            RenderDestinationParse::Destination(
                RenderDestinationV {
                    path: toks[0],
                    mode,
                    user: opt_token(toks, 2),
                    group: opt_token(toks, 3),
                },
            )
        }
    }
}

/// Whether the mode string is exactly four ASCII octal digits.
#[verifier::loop_isolation(false)]
fn check_mode(mode: &String) -> (b: bool)
    ensures
        b == valid_mode(mode@),
{
    let n = mode.as_str().unicode_len();
    if n != 4 {
        return false;
    }
    let mut i: usize = 0;
    while i < 4
        invariant
            mode@.len() == 4,
            i <= 4,
            forall|j: int| 0 <= j < i ==> is_octal_digit(#[trigger] mode@[j]),
        decreases 4 - i,
    {
        let c = mode.as_str().get_char(i);
        if c < '0' || c > '7' {
            return false;
        }
        i += 1;
    }
    true
}

impl RenderDestination {
    /// Parses one render-destination line.
    #[verifier::loop_isolation(false)]
    pub fn parse(s: &str) -> (r: Result<RenderDestination, ParseRenderDestinationError>)
        ensures
            match r {
                Ok(rd) => spec_parse_render_destination(s@) == RenderDestinationParse::Destination(
                    rd@,
                ),
                Err(ParseRenderDestinationError::IncorrectArity { arity }) =>
                    spec_parse_render_destination(s@) == RenderDestinationParse::IncorrectArity(
                    arity as int,
                ),
                Err(ParseRenderDestinationError::InvalidMode { mode }) =>
                    spec_parse_render_destination(s@) == RenderDestinationParse::InvalidMode(mode@),
            },
    {
        let toks = split_ascii_tokens(s);
        let ghost tv = spec_ws_tokens(s@);
        if toks.len() == 0 || toks.len() > 4 {
            return Err(ParseRenderDestinationError::IncorrectArity { arity: toks.len() });
        }
        proof {
            reveal_strlit("-");
            assert("-"@ =~= seq!['-']);
        }
        let path = toks[0].clone();
        let mode: String = if toks.len() >= 2 && !str_eq(toks[1].as_str(), "-") {
            proof {
                assert(toks.deep_view()[1] == toks@[1]@);
                assert(opt_token(tv, 1) == Some(toks@[1 as int]@));
            }
            toks[1].clone()
        } else {
            proof {
                assert(opt_token(tv, 1) is None);
            }
            let m = String::from_str("0644");
            proof {
                reveal_strlit("0644");
                assert(m@ =~= default_mode());
            }
            m
        };
        if !check_mode(&mode) {
            return Err(ParseRenderDestinationError::InvalidMode { mode });
        }
        let user: Option<String> = if toks.len() >= 3 && !str_eq(toks[2].as_str(), "-") {
            Some(toks[2].clone())
        } else {
            None
        };
        let group: Option<String> = if toks.len() >= 4 && !str_eq(toks[3].as_str(), "-") {
            Some(toks[3].clone())
        } else {
            None
        };
        proof {
            assert(toks.deep_view()[0] == toks@[0]@);
        }
        Ok(RenderDestination { path, mode, user, group })
    }
}

impl core::str::FromStr for RenderDestination {
    type Err = ParseRenderDestinationError;

    fn from_str(s: &str) -> Result<RenderDestination, ParseRenderDestinationError> {
        RenderDestination::parse(s)
    }
}

/// One line with a trailing carriage return removed.
pub open spec fn strip_cr(l: Seq<char>) -> Seq<char> {
    if l.len() > 0 && l.last() == '\r' {
        l.drop_last()
    } else {
        l
    }
}

/// `strip_cr` as a mapping function.
pub open spec fn strip_cr_fn() -> spec_fn(Seq<char>) -> Seq<char> {
    |l: Seq<char>| strip_cr(l)
}

/// A comment line: its first character is `#`.
pub open spec fn is_comment(l: Seq<char>) -> bool {
    l.len() > 0 && l[0] == '#'
}

/// Keeps the lines that are not comments.
pub open spec fn keep_line_fn() -> spec_fn(Seq<char>) -> bool {
    |l: Seq<char>| !is_comment(l)
}

/// The render-destination lines of a rendered-to file: the content with
/// its surrounding whitespace trimmed, split at line breaks, comment
/// lines dropped.
pub open spec fn spec_render_lines(s: Seq<char>) -> Seq<Seq<char>> {
    let t = spec_trim(s);
    if t.len() == 0 {
        Seq::empty()
    } else {
        spec_split(t, '\n').map_values(strip_cr_fn()).filter(keep_line_fn())
    }
}

/// Whether a line parses as a destination.
pub open spec fn line_parses(l: Seq<char>) -> bool {
    spec_parse_render_destination(l) is Destination
}

/// Whether parsing a line fails with exactly this error.
pub open spec fn parse_error_of(l: Seq<char>, e: ParseRenderDestinationError) -> bool {
    match e {
        ParseRenderDestinationError::IncorrectArity { arity } => spec_parse_render_destination(l)
            == RenderDestinationParse::IncorrectArity(arity as int),
        ParseRenderDestinationError::InvalidMode { mode } => spec_parse_render_destination(l)
            == RenderDestinationParse::InvalidMode(mode@),
    }
}

/// One raw line with a trailing carriage return removed.
fn strip_cr_exec(line: &String) -> (r: String)
    ensures
        r@ == strip_cr(line@),
{
    let n = line.as_str().unicode_len();
    if n > 0 && line.as_str().get_char(n - 1) == '\r' {
        let s = line.as_str().substring_char(0, n - 1);
        proof {
            assert(s@ =~= line@.drop_last());
        }
        s.to_owned()
    } else {
        line.clone()
    }
}

impl RenderDestination {
    /// Parses the whole content of a rendered-to file: one destination
    /// per non-comment line, in order, or the first error among its
    /// lines.
    #[verifier::loop_isolation(false)]
    pub fn parse_lines(contents: &str) -> (r: Result<
        Vec<RenderDestination>,
        ParseRenderDestinationError,
    >)
        ensures
            ({
                let lines = spec_render_lines(contents@);
                match r {
                    Ok(v) => v@.len() == lines.len() && forall|i: int|
                        0 <= i < lines.len() ==> spec_parse_render_destination(lines[i])
                            == RenderDestinationParse::Destination(#[trigger] v.deep_view()[i]),
                    Err(e) => exists|i: int|
                        0 <= i < lines.len() && #[trigger] parse_error_of(lines[i], e) && (forall|
                            j: int,
                        | 0 <= j < i ==> line_parses(#[trigger] lines[j])),
                }
            }),
    {
        let t = trim_ascii(contents);
        if t.unicode_len() == 0 {
            return Ok(Vec::new());
        }
        let raw = split_on_char(t, '\n');
        let ghost all = raw.deep_view().map_values(strip_cr_fn());
        let ghost lines = spec_render_lines(contents@);
        proof {
            assert(lines == all.filter(keep_line_fn()));
            assert(all.take(0) =~= Seq::<Seq<char>>::empty());
            crate::text::lemma_filter_empty::<Seq<char>>(keep_line_fn());
        }
        let mut out: Vec<RenderDestination> = Vec::new();
        let mut i: usize = 0;
        while i < raw.len()
            invariant
                i <= raw@.len(),
                all.len() == raw@.len(),
                out.deep_view().len() == all.take(i as int).filter(keep_line_fn()).len(),
                all.take(i as int).filter(keep_line_fn()) == lines.take(
                    out.deep_view().len() as int,
                ),
                forall|k: int|
                    0 <= k < out.deep_view().len() ==> spec_parse_render_destination(lines[k])
                        == RenderDestinationParse::Destination(#[trigger] out.deep_view()[k]),
            decreases raw@.len() - i,
        {
            let line = strip_cr_exec(&raw[i]);
            proof {
                assert(all[i as int] == strip_cr(raw.deep_view()[i as int]));
                assert(raw.deep_view()[i as int] == raw@[i as int]@);
                assert(line@ == all[i as int]);
                assert(all.take(i as int + 1) =~= all.take(i as int).push(all[i as int]));
                crate::text::lemma_filter_push(all.take(i as int), all[i as int], keep_line_fn());
            }
            let n = line.as_str().unicode_len();
            if n > 0 && line.as_str().get_char(0) == '#' {
                // a comment line contributes nothing
                i += 1;
                continue ;
            }
            proof {
                assert(!is_comment(line@));
                // the current line is the next line of the filtered sequence
                assert(all =~= all.take(i as int) + all.skip(i as int));
                Seq::filter_distributes_over_add(
                    all.take(i as int),
                    all.skip(i as int),
                    keep_line_fn(),
                );
                assert(all.skip(i as int) =~= Seq::<Seq<char>>::empty().push(all[i as int])
                    + all.skip(i as int + 1));
                Seq::filter_distributes_over_add(
                    Seq::<Seq<char>>::empty().push(all[i as int]),
                    all.skip(i as int + 1),
                    keep_line_fn(),
                );
                crate::text::lemma_filter_push(Seq::<Seq<char>>::empty(), all[i as int], keep_line_fn());
                crate::text::lemma_filter_empty::<Seq<char>>(keep_line_fn());
                assert(lines[out.deep_view().len() as int] == all[i as int]);
            }
            match RenderDestination::parse(line.as_str()) {
                Ok(rd) => {
                    let ghost out_old = out;
                    out.push(rd);
                    proof {
                        assert(out.deep_view() =~= out_old.deep_view().push(rd@));
                        assert(all.take(i as int + 1).filter(keep_line_fn()) =~= lines.take(
                            out.deep_view().len() as int,
                        ));
                    }
                    i += 1;
                },
                Err(e) => {
                    proof {
                        let w = out.deep_view().len() as int;
                        assert(lines.len() >= w + 1);
                        assert(parse_error_of(lines[w], e));
                        assert forall|j: int| 0 <= j < w implies line_parses(#[trigger] lines[j]) by {
                            assert(spec_parse_render_destination(lines[j])
                                == RenderDestinationParse::Destination(out.deep_view()[j]));
                        }
                    }
                    return Err(e);
                },
            }
        }
        proof {
            assert(all.take(i as int) =~= all);
            assert(out.deep_view().len() == lines.len());
        }
        Ok(out)
    }
}

} // verus!
