use vstd::prelude::*;

use crate::convert::{convert, spec_convert, ConvertError, Value, ValueV};
use crate::engine::{node_of, node_of_yaml, scan_error_text, yaml_load};
use crate::node::{nodes_view, Node, NodeV};
use crate::resolve::{lemma_resolve_resolved, resolve_aliases, resolved};
use crate::resolve::{spec_resolve, ResolveError};

verus! {

/// The dangling-alias policy: `Strict` reports an out-of-range alias as
/// an error; `Lenient` silently resolves it to null.
#[derive(Debug, Clone, Copy, PartialEq, Eq, Structural)]
pub enum AliasMode {
    Strict,
    Lenient,
}

/// The duplicate-key policy: `OrderedPairs` keeps every key/value pair
/// of a converted mapping in order, duplicates included;
/// `CollapsingMap` folds each pair into an ordered map, so the last
/// writer of a key wins.
#[derive(Debug, Clone, Copy, PartialEq, Eq, Structural)]
pub enum KeyPolicy {
    OrderedPairs,
    CollapsingMap,
}

/// A failure of the end-to-end parse: the grammar engine's diagnostic,
/// a float text that is not a valid number, an out-of-range alias
/// index, or a self-referential alias chain.
#[derive(Debug, PartialEq, Eq)]
pub enum ParseFailure {
    Grammar(String),
    Number(String),
    DanglingAlias(usize),
    CyclicAlias,
}

/// The mathematical model of a `ParseFailure`.
pub enum ParseFailureV {
    Grammar(Seq<char>),
    Number(Seq<char>),
    DanglingAlias(usize),
    CyclicAlias,
}

impl View for ParseFailure {
    type V = ParseFailureV;

    open spec fn view(&self) -> ParseFailureV {
        match self {
            ParseFailure::Grammar(s) => ParseFailureV::Grammar(s@),
            ParseFailure::Number(s) => ParseFailureV::Number(s@),
            ParseFailure::DanglingAlias(i) => ParseFailureV::DanglingAlias(*i),
            ParseFailure::CyclicAlias => ParseFailureV::CyclicAlias,
        }
    }
}

/// The view of an exec parse result.
pub open spec fn parse_view(r: Result<Value, ParseFailure>) -> Result<ValueV, ParseFailureV> {
    match r {
        Ok(v) => Ok(v@),
        Err(e) => Err(e@),
    }
}

/// The outcome of resolving document 0 of `docs` against the whole
/// document list and converting it. An empty document list yields null.
pub open spec fn spec_parse_docs(docs: Seq<NodeV>, strict: bool, collapse: bool) -> Result<
    ValueV,
    ParseFailureV,
> {
    if docs.len() == 0 {
        Ok(ValueV::Null)
    } else {
        match spec_resolve(docs[0], docs, docs.len(), strict) {
            Err(ResolveError::DanglingAlias(i)) => Err(ParseFailureV::DanglingAlias(i)),
            Err(ResolveError::CyclicAlias) => Err(ParseFailureV::CyclicAlias),
            Ok(r) => match spec_convert(r, collapse) {
                Ok(v) => Ok(v),
                Err(t) => Err(ParseFailureV::Number(t)),
            },
        }
    }
}

/// Resolve aliases and merge keys in document 0 of `docs` against the
/// whole document list, then convert the resolved tree into a generic
/// value under the given policies. Documents after the first are
/// ignored; an empty document list yields null.
pub fn parse_documents(docs: &Vec<Node>, aliases: AliasMode, keys: KeyPolicy) -> (r: Result<
    Value,
    ParseFailure,
>)
    ensures
        parse_view(r) == spec_parse_docs(
            nodes_view(docs@),
            aliases is Strict,
            keys is CollapsingMap,
        ),
{
    let strict = match aliases {
        AliasMode::Strict => true,
        AliasMode::Lenient => false,
    };
    let collapse = match keys {
        KeyPolicy::OrderedPairs => false,
        KeyPolicy::CollapsingMap => true,
    };
    if docs.len() == 0 {
        return Ok(Value::Null);
    }
    proof {
        assert(nodes_view(docs@)[0] == docs@[0]@);
    }
    match resolve_aliases(&docs[0], docs, strict) {
        Err(ResolveError::DanglingAlias(i)) => Err(ParseFailure::DanglingAlias(i)),
        Err(ResolveError::CyclicAlias) => Err(ParseFailure::CyclicAlias),
        Ok(res) => {
            proof {
                lemma_resolve_resolved(
                    nodes_view(docs@)[0],
                    nodes_view(docs@),
                    docs@.len(),
                    strict,
                );
                assert(resolved(res@));
            }
            match convert(&res, collapse) {
                Ok(v) => Ok(v),
                Err(ConvertError::Number(t)) => Err(ParseFailure::Number(t)),
            }
        },
    }
}

/// Parse a YAML text end to end: run the grammar engine, select
/// document 0, resolve aliases and merge keys against the whole
/// document stream, and convert the result into a generic value under
/// the given policies. A grammar error is returned as
/// `ParseFailure::Grammar` with the engine's diagnostic; no partial
/// result is ever produced.
pub fn parse_with(text: &str, aliases: AliasMode, keys: KeyPolicy) -> (r: Result<
    Value,
    ParseFailure,
>)
    ensures
        (match yaml_load(text@) {
            Ok(ydocs) => parse_view(r) == spec_parse_docs(
                ydocs.map_values(|y: yaml_rust2::Yaml| node_of(y)@),
                aliases is Strict,
                keys is CollapsingMap,
            ),
            Err(m) => r matches Err(f) && f@ == ParseFailureV::Grammar(m),
        }),
{
    match yaml_rust2::YamlLoader::load_from_str(text) {
        Err(e) => Err(ParseFailure::Grammar(scan_error_text(&e))),
        Ok(ydocs) => {
            let mut docs: Vec<Node> = Vec::new();
            let mut i: usize = 0;
            while i < ydocs.len()
                invariant
                    i <= ydocs@.len(),
                    docs@.len() == i,
                    forall|j: int| 0 <= j < i ==> #[trigger] docs@[j] == node_of(ydocs@[j]),
                decreases ydocs@.len() - i,
            {
                let nd = node_of_yaml(&ydocs[i]);
                docs.push(nd);
                i += 1;
            }
            proof {
                assert(nodes_view(docs@) =~= ydocs@.map_values(
                    |y: yaml_rust2::Yaml| node_of(y)@,
                ));
            }
            parse_documents(&docs, aliases, keys)
        },
    }
}

/// Parse a YAML text with the default policies: strict dangling-alias
/// reporting and ordered-pair tables.
pub fn parse(text: &str) -> (r: Result<Value, ParseFailure>)
    ensures
        (match yaml_load(text@) {
            Ok(ydocs) => parse_view(r) == spec_parse_docs(
                ydocs.map_values(|y: yaml_rust2::Yaml| node_of(y)@),
                true,
                false,
            ),
            Err(m) => r matches Err(f) && f@ == ParseFailureV::Grammar(m),
        }),
{
    parse_with(text, AliasMode::Strict, KeyPolicy::OrderedPairs)
}

} // verus!

