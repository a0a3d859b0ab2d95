//! The tokens of a source file, and how many of them a slice takes in.

use crate::source::Span;
use vstd::prelude::*;

verus! {

/// A token.
#[derive(Clone, Copy, Debug, PartialEq, Eq, Structural)]
pub struct Token {
    pub span: Span,
}

/// A token, or a group of tokens between delimiters.
#[derive(Debug)]
pub enum TokenTree {
    Token(Token),
    Delimited(TokenStream),
}

/// A list of tokens and groups of tokens.
#[derive(Debug)]
pub struct TokenStream {
    pub trees: Vec<TokenTree>,
}

/// The tokens of a tree, the delimiters of its groups left out.
pub open spec fn tree_tokens(tree: TokenTree) -> Seq<Token>
    decreases tree,
{
    match tree {
        TokenTree::Token(token) => seq![token],
        TokenTree::Delimited(stream) => all_tokens(stream.trees@),
    }
}

/// The tokens of some trees, one tree after the other.
pub open spec fn all_tokens(trees: Seq<TokenTree>) -> Seq<Token>
    decreases trees,
{
    if trees.len() == 0 {
        Seq::empty()
    } else {
        all_tokens(trees.drop_last()) + tree_tokens(trees.last())
    }
}

/// The tokens of a stream, in order.
pub fn flatten_stream(stream: TokenStream) -> (tokens: Vec<Token>)
    ensures
        tokens@ == all_tokens(stream.trees@),
{
    let mut tokens: Vec<Token> = Vec::new();
    flatten_into(&stream.trees, &mut tokens);
    assert(tokens@ =~= all_tokens(stream.trees@));
    tokens
}

/// Adds the tokens of some trees to a list.
fn flatten_into(trees: &Vec<TokenTree>, tokens: &mut Vec<Token>)
    ensures
        final(tokens)@ == old(tokens)@ + all_tokens(trees@),
    decreases trees@,
{
    let ghost before = tokens@;
    let mut i: usize = 0;
    assert(tokens@ =~= before + all_tokens(trees@.take(0)));
    while i < trees.len()
        invariant
            i <= trees@.len(),
            tokens@ == before + all_tokens(trees@.take(i as int)),
        decreases trees@.len() - i,
    {
        assert(trees@.take(i + 1).drop_last() =~= trees@.take(i as int));
        assert(trees@.take(i + 1).last() == trees@[i as int]);
        assert(all_tokens(trees@.take(i + 1)) == all_tokens(trees@.take(i as int)) + tree_tokens(
            trees@[i as int],
        ));
        match &trees[i] {
            TokenTree::Token(token) => {
                tokens.push(*token);
                assert(tree_tokens(trees@[i as int]) == seq![*token]);
            },
            TokenTree::Delimited(stream) => {
                assert(decreases_to!(trees@ => trees@[i as int]));
                flatten_into(&stream.trees, tokens);
                assert(tree_tokens(trees@[i as int]) == all_tokens(stream.trees@));
            },
        }
        i = i + 1;
        assert(tokens@ =~= before + all_tokens(trees@.take(i as int)));
    }
    assert(trees@.take(i as int) =~= trees@);
}

/// Whether one of some spans contains a span.
pub open spec fn any_contains(spans: Seq<Span>, span: Span) -> bool {
    exists|i: int| 0 <= i < spans.len() && (#[trigger] spans[i]).encloses(span)
}

/// How many of some tokens are in one of some spans.
pub open spec fn count_within(tokens: Seq<Token>, spans: Seq<Span>) -> nat
    decreases tokens.len(),
{
    if tokens.len() == 0 {
        0
    } else {
        count_within(tokens.drop_last(), spans) + if any_contains(spans, tokens.last().span) {
            1nat
        } else {
            0nat
        }
    }
}

/// Whether one of some spans contains a span.
fn is_within(spans: &Vec<Span>, span: Span) -> (found: bool)
    ensures
        found == any_contains(spans@, span),
{
    let mut i: usize = 0;
    while i < spans.len()
        invariant
            i <= spans@.len(),
            forall|k: int| 0 <= k < i ==> !(#[trigger] spans@[k]).encloses(span),
        decreases spans@.len() - i,
    {
        if spans[i].contains(span) {
            return true;
        }
        i = i + 1;
    }
    false
}

/// How many of some tokens are in one of some spans.
pub fn count_relevant_tokens(tokens: &Vec<Token>, spans: &Vec<Span>) -> (count: usize)
    ensures
        count == count_within(tokens@, spans@),
        count <= tokens@.len(),
{
    let mut count: usize = 0;
    let mut i: usize = 0;
    while i < tokens.len()
        invariant
            i <= tokens@.len(),
            count <= i,
            count == count_within(tokens@.take(i as int), spans@),
        decreases tokens@.len() - i,
    {
        assert(tokens@.take(i + 1).drop_last() =~= tokens@.take(i as int));
        if is_within(spans, tokens[i].span) {
            count = count + 1;
        }
        i = i + 1;
    }
    assert(tokens@.take(i as int) =~= tokens@);
    count
}

/// The tokens of two streams, one after the other, are those of the first followed
/// by those of the second.
pub proof fn tokens_of_both(first: Seq<TokenTree>, second: Seq<TokenTree>)
    ensures
        all_tokens(first + second) == all_tokens(first) + all_tokens(second),
    decreases second.len(),
{
    if second.len() == 0 {
        assert(first + second =~= first);
        assert(all_tokens(first) + all_tokens(second) =~= all_tokens(first));
    } else {
        tokens_of_both(first, second.drop_last());
        assert((first + second).drop_last() =~= first + second.drop_last());
        assert(all_tokens(first + second) =~= all_tokens(first) + all_tokens(second));
    }
}

/// Putting trees into a group leaves their tokens as they are.
pub proof fn grouping_keeps_tokens(stream: TokenStream)
    ensures
        all_tokens(seq![TokenTree::Delimited(stream)]) == all_tokens(stream.trees@),
{
    let group = seq![TokenTree::Delimited(stream)];
    assert(group.drop_last() =~= Seq::<TokenTree>::empty());
    assert(all_tokens(group) =~= all_tokens(group.drop_last()) + tree_tokens(group.last()));
    assert(all_tokens(group.drop_last()) =~= Seq::<Token>::empty());
    assert(all_tokens(group) =~= all_tokens(stream.trees@));
}

/// More spans take in no fewer tokens, and never more than there are.
pub proof fn more_spans_take_in_more(tokens: Seq<Token>, spans: Seq<Span>, more: Seq<Span>)
    requires
        forall|i: int| 0 <= i < spans.len() ==> more.contains(#[trigger] spans[i]),
    ensures
        count_within(tokens, spans) <= count_within(tokens, more) <= tokens.len(),
    decreases tokens.len(),
{
    if tokens.len() > 0 {
        more_spans_take_in_more(tokens.drop_last(), spans, more);
        let span = tokens.last().span;
        if any_contains(spans, span) {
            let i = choose|i: int| 0 <= i < spans.len() && (#[trigger] spans[i]).encloses(span);
            assert(more.contains(spans[i]));
            let j = choose|j: int| 0 <= j < more.len() && more[j] == spans[i];
            assert(more[j].encloses(span));
        }
    }
}

} // verus!
