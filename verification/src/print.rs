//! Formatting one file: from its syntax tree to its text.

use crate::render::{prettyprint, render, PrettyPrintParameters, WrapParameters};
use crate::rules::{get, get_spec, FormatConfig, Rules};
use crate::transform::{has_unmatched_closer, transform_spec, transform_with, TransformError};
use crate::text::{
    ends_in_one_line_feed, lemma_trim_line_feeds, trim_end_line_feeds, trim_line_feeds,
};
use crate::tree::{SyntaxNode, Tree};
use vstd::prelude::*;
use vstd::string::*;

verus! {

/// The formatted text of `node` under `rules` and `arguments`: its document,
/// rendered with nothing above it that breaks, without the line feeds at the
/// end of the rendering and with one line feed in their place. `None` where
/// the tree has no document.
pub open spec fn format_spec(
    rules: Rules,
    node: SyntaxNode,
    arguments: PrettyPrintParameters,
) -> Option<Seq<char>> {
    match transform_spec(rules, node) {
        Some(document) => Some(
            trim_line_feeds(render(document, arguments, WrapParameters::flat()).text) + seq![
                '\n',
            ],
        ),
        None => None,
    }
}

/// The formatted text of the file whose syntax tree is `node`, under the
/// layout rule table `config`. It ends in one line feed and not in two.
///
/// It fails exactly where the tree has no document: where a closing
/// delimiter that nothing matches stands among the children of one of its
/// nodes.
pub fn print_with(config: &FormatConfig, node: &Tree, arguments: &PrettyPrintParameters) -> (out:
    Result<String, TransformError>)
    requires
        node.wf(),
    ensures
        out is Err <==> has_unmatched_closer(config@, node@),
        out matches Ok(text) ==> ends_in_one_line_feed(text@),
        match out {
            Ok(text) => format_spec(config@, node@, *arguments) == Some(text@),
            Err(error) => format_spec(config@, node@, *arguments) is None && error
                == TransformError::UnmatchedCloser,
        },
{
    match transform_with(config, node) {
        Ok(document) => {
            let rendered = prettyprint(&document, arguments, WrapParameters::default()).result;
            let mut text = trim_end_line_feeds(rendered.as_str()).to_owned();
            text.append("\n");
            proof {
                reveal_strlit("\n");
                assert("\n"@ =~= seq!['\n']);
                lemma_trim_line_feeds(rendered@);
            }
            Ok(text)
        },
        Err(error) => Err(error),
    }
}

/// The formatted text of the file whose syntax tree is `node`, under the
/// layout rule table of Java.
pub fn print(node: &Tree, arguments: &PrettyPrintParameters) -> (out: Result<
    String,
    TransformError,
>)
    requires
        node.wf(),
    ensures
        out is Err <==> has_unmatched_closer(get_spec(), node@),
        out matches Ok(text) ==> ends_in_one_line_feed(text@),
        match out {
            Ok(text) => format_spec(get_spec(), node@, *arguments) == Some(text@),
            Err(error) => format_spec(get_spec(), node@, *arguments) is None && error
                == TransformError::UnmatchedCloser,
        },
{
    let config = get();
    print_with(&config, node, arguments)
}

} // verus!
