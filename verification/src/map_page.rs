//! The map page of an election: an HTML template with the map script and
//! the title of the election filled in.
use vstd::prelude::*;

use crate::text::{
    lemma_replace_absent, lemma_replace_char, lemma_replace_free, lemma_replace_free_prefix,
    lemma_replace_head, occurs, replace_all, replace_spec,
};

verus! {

/// Where the template takes the script.
pub const SCRIPT_PLACEHOLDER: &'static str = "{{JAVASCRIPT}}";

/// Where the template takes the title.
pub const TITLE_PLACEHOLDER: &'static str = "{{DATA_TITLE}}";

/// The script line that names the data the map shows.
pub open spec fn data_source_line(data_source: Seq<char>) -> Seq<char> {
    "const DATA_SOURCE = '"@ + data_source + "';"@
}

/// The title of a data source: its name with underscores as spaces.
pub open spec fn map_title(data_source: Seq<char>) -> Seq<char> {
    replace_spec(data_source, "_"@, " "@)
}

/// The map page: the script placeholder replaced by the data source line
/// followed by the map script, then the title placeholder replaced by the title.
pub open spec fn map_page(template: Seq<char>, script: Seq<char>, data_source: Seq<char>) -> Seq<
    char,
> {
    replace_spec(
        replace_spec(template, SCRIPT_PLACEHOLDER@, data_source_line(data_source) + script),
        TITLE_PLACEHOLDER@,
        map_title(data_source),
    )
}

/// Renders the map page of `data_source` from the page template and the map script.
pub fn render_map_page(template: &str, script: &str, data_source: &str) -> (res: String)
    ensures
        res@ == map_page(template@, script@, data_source@),
{
    let mut line = String::from_str("const DATA_SOURCE = '");
    line.append(data_source);
    line.append("';");
    line.append(script);
    let with_script = replace_all(template, SCRIPT_PLACEHOLDER, line.as_str());
    let title = replace_all(data_source, "_", " ");
    replace_all(with_script.as_str(), TITLE_PLACEHOLDER, title.as_str())
}

/// The title is the data source with every underscore turned into a space,
/// and nothing else changed.
pub proof fn lemma_map_title(data_source: Seq<char>)
    ensures
        map_title(data_source) == data_source.map_values(
            |c: char| if c == '_' { ' ' } else { c },
        ),
{
    reveal_strlit("_");
    reveal_strlit(" ");
    assert("_"@ =~= seq!['_']);
    assert(" "@ =~= seq![' ']);
    lemma_replace_char(data_source, '_', ' ');
}

/// No character of `s` is an opening brace, with which both placeholders begin.
pub open spec fn brace_free(s: Seq<char>) -> bool {
    forall|i: int| 0 <= i < s.len() ==> s[i] != '{'
}

/// The page of a template with one script placeholder and text around it
/// that holds no brace: the placeholder is replaced by the line that names
/// the data source followed by the whole map script, every line of it, and
/// nothing else changes, where neither the script nor the text after it
/// holds the title placeholder (nor does the data source a brace).
pub proof fn lemma_map_page_script(
    pre: Seq<char>,
    post: Seq<char>,
    script: Seq<char>,
    data_source: Seq<char>,
)
    requires
        brace_free(pre),
        brace_free(post),
        brace_free(data_source),
        forall|i: int|
            0 <= i <= (script + post).len() - TITLE_PLACEHOLDER@.len() ==> !#[trigger] occurs(
                script + post,
                TITLE_PLACEHOLDER@,
                i,
            ),
    ensures
        map_page(pre + SCRIPT_PLACEHOLDER@ + post, script, data_source) == pre
            + "const DATA_SOURCE = '"@ + data_source + "';"@ + script + post,
{
    reveal_strlit("{{JAVASCRIPT}}");
    reveal_strlit("{{DATA_TITLE}}");
    reveal_strlit("const DATA_SOURCE = '");
    reveal_strlit("';");
    let sp = SCRIPT_PLACEHOLDER@;
    let tp = TITLE_PLACEHOLDER@;
    assert(sp[0] == '{');
    assert(tp[0] == '{');
    let line = data_source_line(data_source);
    let x = line + script;
    let title = map_title(data_source);
    // The script placeholder.
    assert(pre + sp + post =~= pre + (sp + post));
    lemma_replace_free_prefix(pre, sp + post, sp, x);
    lemma_replace_head(sp, post, x);
    lemma_replace_free(post, sp, x);
    let first = pre + (x + post);
    assert(replace_spec(pre + sp + post, sp, x) == first);
    // The title placeholder.
    let head = pre + line;
    assert(brace_free(line)) by {
        let a = "const DATA_SOURCE = '"@;
        let b = "';"@;
        assert forall|i: int| 0 <= i < line.len() implies line[i] != '{' by {
            if i < a.len() {
                assert(line[i] == a[i]);
            } else if i < a.len() + data_source.len() {
                assert(line[i] == data_source[i - a.len()]);
            } else {
                assert(line[i] == b[i - a.len() - data_source.len()]);
            }
        }
    }
    assert forall|i: int| 0 <= i < head.len() implies head[i] != tp[0] by {
        if i < pre.len() {
            assert(head[i] == pre[i]);
        } else {
            assert(head[i] == line[i - pre.len()]);
        }
    }
    assert(first =~= head + (script + post));
    lemma_replace_free_prefix(head, script + post, tp, title);
    lemma_replace_absent(script + post, tp, title);
    assert(head + (script + post) =~= pre + "const DATA_SOURCE = '"@ + data_source + "';"@ + script
        + post);
}

/// The page of a template with one title placeholder and text around it
/// that holds no brace: the placeholder is replaced by the title, the data
/// source with every underscore as a space, and nothing else changes.
pub proof fn lemma_map_page_title(
    pre: Seq<char>,
    post: Seq<char>,
    script: Seq<char>,
    data_source: Seq<char>,
)
    requires
        brace_free(pre),
        brace_free(post),
    ensures
        map_page(pre + TITLE_PLACEHOLDER@ + post, script, data_source) == pre
            + data_source.map_values(|c: char| if c == '_' { ' ' } else { c }) + post,
{
    reveal_strlit("{{JAVASCRIPT}}");
    reveal_strlit("{{DATA_TITLE}}");
    let sp = SCRIPT_PLACEHOLDER@;
    let tp = TITLE_PLACEHOLDER@;
    let x = data_source_line(data_source) + script;
    let title = map_title(data_source);
    let u = tp + post;
    assert(sp[0] == '{' && sp[1] == '{' && sp[2] == 'J');
    assert(tp[0] == '{' && tp[1] == '{' && tp[2] == 'D');
    assert forall|i: int| 2 <= i < tp.len() implies tp[i] != '{' by {}
    // No script placeholder in the title placeholder and what follows it.
    assert forall|i: int| 0 <= i <= u.len() - sp.len() implies !#[trigger] occurs(u, sp, i) by {
        let w = u.subrange(i, i + sp.len());
        if i == 0 {
            assert(w[2] == u[2]);
            assert(u[2] == tp[2]);
        } else if i == 1 {
            assert(w[1] == u[2]);
            assert(u[2] == tp[2]);
        } else {
            assert(w[0] == u[i]);
            if i < tp.len() {
                assert(u[i] == tp[i]);
            } else {
                assert(u[i] == post[i - tp.len()]);
            }
        }
    }
    assert(pre + tp + post =~= pre + u);
    lemma_replace_free_prefix(pre, u, sp, x);
    lemma_replace_absent(u, sp, x);
    // The title placeholder.
    lemma_replace_free_prefix(pre, u, tp, title);
    lemma_replace_head(tp, post, title);
    lemma_replace_free(post, tp, title);
    lemma_map_title(data_source);
    assert(pre + (title + post) =~= pre + title + post);
}

} // verus!
