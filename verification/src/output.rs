use vstd::prelude::*;

verus! {

use crate::result::{ItoolsError, ItoolsResult};
use crate::search::{Matches, match_view};

// Result rendering: each renderer turns the search results into the text it
// stands for, and the caller prints, serializes or discards that text.

/// The lines for one result's matched files, in the plain-text listing:
/// each file other than the query itself, indented, one per line.
pub open spec fn text_matched_lines(files: Seq<Seq<char>>, f: Seq<char>) -> Seq<char>
    decreases files.len(),
{
    if files.len() == 0 {
        Seq::empty()
    } else {
        text_matched_lines(files.drop_last(), f) + (if files.last() == f {
            Seq::<char>::empty()
        } else {
            "   "@ + files.last() + "\n"@
        })
    }
}

/// The plain-text listing: for each result, the query file's line followed
/// by its matched files.
pub open spec fn text_render(ms: Seq<(Seq<char>, Seq<Seq<char>>)>) -> Seq<char>
    decreases ms.len(),
{
    if ms.len() == 0 {
        Seq::empty()
    } else {
        text_render(ms.drop_last()) + ms.last().0 + "\n"@ + text_matched_lines(
            ms.last().1,
            ms.last().0,
        )
    }
}

/// The lines for one result's matched files, in the YAML listing.
pub open spec fn yaml_matched_lines(files: Seq<Seq<char>>) -> Seq<char>
    decreases files.len(),
{
    if files.len() == 0 {
        Seq::empty()
    } else {
        yaml_matched_lines(files.drop_last()) + "    - "@ + files.last() + "\n"@
    }
}

/// The YAML listing: a document holding one entry per result, each with
/// its query file and its matched files.
pub open spec fn yaml_render_items(ms: Seq<(Seq<char>, Seq<Seq<char>>)>) -> Seq<char>
    decreases ms.len(),
{
    if ms.len() == 0 {
        Seq::empty()
    } else {
        yaml_render_items(ms.drop_last()) + "- filename: "@ + ms.last().0
            + "\n  matched_files:\n"@ + yaml_matched_lines(ms.last().1)
    }
}

/// The YAML listing with its document marker.
pub open spec fn yaml_render(ms: Seq<(Seq<char>, Seq<Seq<char>>)>) -> Seq<char> {
    "---\n"@ + yaml_render_items(ms)
}

/// A renderer of search results. `spec_output` is the text the renderer
/// stands for; `output` produces it.
pub trait Output {
    spec fn spec_output(&self, ms: Seq<(Seq<char>, Seq<Seq<char>>)>) -> Seq<char>;

    fn output(&self, matches: &Vec<Matches>) -> (r: String)
        ensures
            r@ == self.spec_output(matches@.map_values(|m: Matches| match_view(m))),
    ;
}

/// The plain-text renderer.
#[derive(Debug, Default)]
pub struct TextOutput();

/// The renderer that suppresses all output.
#[derive(Debug, Default)]
pub struct NoOutput();

/// The renderer for handing files to an outside viewer. What text it emits
/// is nothing; launching the viewer is outside work and stays with the
/// caller.
#[derive(Debug, Default)]
pub struct OpenOutput();

/// The YAML renderer.
#[derive(Debug, Default)]
pub struct YamlOutput();

impl Output for TextOutput {
    open spec fn spec_output(&self, ms: Seq<(Seq<char>, Seq<Seq<char>>)>) -> Seq<char> {
        text_render(ms)
    }

    fn output(&self, matches: &Vec<Matches>) -> (r: String) {
        let ghost ms = matches@.map_values(|m: Matches| match_view(m));
        let mut out = String::new();
        let n = matches.len();
        proof {
            assert(ms.take(0) =~= Seq::<(Seq<char>, Seq<Seq<char>>)>::empty());
            assert(out@ =~= text_render(ms.take(0)));
        }
        for i in 0..n
            invariant
                n == matches@.len(),
                ms == matches@.map_values(|m: Matches| match_view(m)),
                out@ == text_render(ms.take(i as int)),
        {
            let mtch = &matches[i];
            out.append(mtch.filename.as_str());
            out.append("\n");
            let ghost files = ms[i as int].1;
            let k = mtch.matched_files.len();
            proof {
                assert(files.take(0) =~= Seq::<Seq<char>>::empty());
                assert(out@ =~= text_render(ms.take(i as int)) + ms[i as int].0 + "\n"@
                    + text_matched_lines(files.take(0), ms[i as int].0));
            }
            for j in 0..k
                invariant
                    k == mtch.matched_files@.len(),
                    ms == matches@.map_values(|m: Matches| match_view(m)),
                    i < matches@.len(),
                    mtch == matches@[i as int],
                    files == ms[i as int].1,
                    out@ == text_render(ms.take(i as int)) + ms[i as int].0 + "\n"@
                        + text_matched_lines(files.take(j as int), ms[i as int].0),
            {
                if !(mtch.matched_files[j] == mtch.filename) {
                    out.append("   ");
                    out.append(mtch.matched_files[j].as_str());
                    out.append("\n");
                }
                proof {
                    assert(files.take(j + 1).drop_last() =~= files.take(j as int));
                    assert(files.take(j + 1).last() == files[j as int]);
                    assert(files[j as int] == mtch.matched_files@[j as int]@);
                }
            }
            proof {
                assert(files.take(k as int) =~= files);
                assert(ms.take(i + 1).drop_last() =~= ms.take(i as int));
                assert(ms.take(i + 1).last() == ms[i as int]);
            }
        }
        proof {
            assert(ms.take(n as int) =~= ms);
        }
        out
    }
}

impl Output for NoOutput {
    open spec fn spec_output(&self, ms: Seq<(Seq<char>, Seq<Seq<char>>)>) -> Seq<char> {
        Seq::empty()
    }

    fn output(&self, matches: &Vec<Matches>) -> (r: String) {
        String::new()
    }
}

impl Output for OpenOutput {
    open spec fn spec_output(&self, ms: Seq<(Seq<char>, Seq<Seq<char>>)>) -> Seq<char> {
        Seq::empty()
    }

    fn output(&self, matches: &Vec<Matches>) -> (r: String) {
        String::new()
    }
}

impl Output for YamlOutput {
    open spec fn spec_output(&self, ms: Seq<(Seq<char>, Seq<Seq<char>>)>) -> Seq<char> {
        yaml_render(ms)
    }

    fn output(&self, matches: &Vec<Matches>) -> (r: String) {
        let ghost ms = matches@.map_values(|m: Matches| match_view(m));
        let mut out = String::new();
        out.append("---\n");
        let n = matches.len();
        proof {
            assert(ms.take(0) =~= Seq::<(Seq<char>, Seq<Seq<char>>)>::empty());
            assert(out@ =~= "---\n"@ + yaml_render_items(ms.take(0)));
        }
        for i in 0..n
            invariant
                n == matches@.len(),
                ms == matches@.map_values(|m: Matches| match_view(m)),
                out@ == "---\n"@ + yaml_render_items(ms.take(i as int)),
        {
            let mtch = &matches[i];
            out.append("- filename: ");
            out.append(mtch.filename.as_str());
            out.append("\n  matched_files:\n");
            let ghost files = ms[i as int].1;
            let ghost base = out@;
            let k = mtch.matched_files.len();
            proof {
                assert(files.take(0) =~= Seq::<Seq<char>>::empty());
                assert(out@ =~= base + yaml_matched_lines(files.take(0)));
            }
            for j in 0..k
                invariant
                    k == mtch.matched_files@.len(),
                    i < matches@.len(),
                    mtch == matches@[i as int],
                    ms == matches@.map_values(|m: Matches| match_view(m)),
                    files == ms[i as int].1,
                    out@ == base + yaml_matched_lines(files.take(j as int)),
            {
                out.append("    - ");
                out.append(mtch.matched_files[j].as_str());
                out.append("\n");
                proof {
                    assert(files.take(j + 1).drop_last() =~= files.take(j as int));
                    assert(files.take(j + 1).last() == files[j as int]);
                    assert(files[j as int] == mtch.matched_files@[j as int]@);
                }
            }
            proof {
                assert(files.take(k as int) =~= files);
                assert(ms.take(i + 1).drop_last() =~= ms.take(i as int));
                assert(ms.take(i + 1).last() == ms[i as int]);
                assert(base =~= "---\n"@ + yaml_render_items(ms.take(i as int)) + "- filename: "@
                    + ms[i as int].0 + "\n  matched_files:\n"@);
            }
        }
        proof {
            assert(ms.take(n as int) =~= ms);
        }
        out
    }
}

/// The renderer the caller picked, as a closed set of variants dispatched
/// by one match.
#[derive(Debug)]
pub enum DynamicOutput {
    Silent(NoOutput),
    Open(OpenOutput),
    Text(TextOutput),
    Yaml(YamlOutput),
}

impl Default for DynamicOutput {
    /// The plain-text renderer.
    fn default() -> (r: DynamicOutput)
        ensures
            r matches DynamicOutput::Text(_),
    {
        DynamicOutput::Text(TextOutput())
    }
}

impl Output for DynamicOutput {
    open spec fn spec_output(&self, ms: Seq<(Seq<char>, Seq<Seq<char>>)>) -> Seq<char> {
        match self {
            DynamicOutput::Silent(o) => o.spec_output(ms),
            DynamicOutput::Open(o) => o.spec_output(ms),
            DynamicOutput::Text(o) => o.spec_output(ms),
            DynamicOutput::Yaml(o) => o.spec_output(ms),
        }
    }

    fn output(&self, matches: &Vec<Matches>) -> (r: String) {
        match self {
            DynamicOutput::Silent(o) => o.output(matches),
            DynamicOutput::Open(o) => o.output(matches),
            DynamicOutput::Text(o) => o.output(matches),
            DynamicOutput::Yaml(o) => o.output(matches),
        }
    }
}

/// The suppressed renderer.
pub fn new_no_output() -> (r: DynamicOutput)
    ensures
        r matches DynamicOutput::Silent(_),
{
    DynamicOutput::Silent(NoOutput())
}

/// The viewer renderer.
pub fn new_open_output() -> (r: DynamicOutput)
    ensures
        r matches DynamicOutput::Open(_),
{
    DynamicOutput::Open(OpenOutput())
}

/// The plain-text renderer.
pub fn new_text_output() -> (r: DynamicOutput)
    ensures
        r matches DynamicOutput::Text(_),
{
    DynamicOutput::Text(TextOutput())
}

/// The YAML renderer.
pub fn new_yaml_output() -> (r: DynamicOutput)
    ensures
        r matches DynamicOutput::Yaml(_),
{
    DynamicOutput::Yaml(YamlOutput())
}

/// The renderer the caller's flags name: quiet suppresses output, else the
/// format string picks one.
pub fn choose_output(quiet: bool, format: &str) -> (r: ItoolsResult<DynamicOutput>)
    ensures
        quiet ==> (r matches Ok(o) && o matches DynamicOutput::Silent(_)),
        !quiet && format@ == "none"@ ==> (r matches Ok(o) && o matches DynamicOutput::Silent(_)),
        !quiet && format@ == "open"@ ==> (r matches Ok(o) && o matches DynamicOutput::Open(_)),
        !quiet && format@ == "text"@ ==> (r matches Ok(o) && o matches DynamicOutput::Text(_)),
        !quiet && format@ == "yaml"@ ==> (r matches Ok(o) && o matches DynamicOutput::Yaml(_)),
        !quiet && format@ != "none"@ && format@ != "open"@ && format@ != "text"@ && format@
            != "yaml"@ ==> r matches Err(ItoolsError::UsageError(_)),
{
    proof {
        reveal_strlit("none");
        reveal_strlit("open");
        reveal_strlit("text");
        reveal_strlit("yaml");
        assert("none"@[0] == 'n' && "open"@[0] == 'o' && "text"@[0] == 't' && "yaml"@[0] == 'y');
        assert("none"@ != "open"@ && "none"@ != "text"@ && "none"@ != "yaml"@ && "open"@
            != "text"@ && "open"@ != "yaml"@ && "text"@ != "yaml"@);
    }
    if quiet {
        return Ok(new_no_output());
    }
    let f = format.to_owned();
    if f == String::from_str("none") {
        Ok(new_no_output())
    } else if f == String::from_str("open") {
        Ok(new_open_output())
    } else if f == String::from_str("text") {
        Ok(new_text_output())
    } else if f == String::from_str("yaml") {
        Ok(new_yaml_output())
    } else {
        Err(ItoolsError::UsageError("unknown output format"))
    }
}

} // verus!
