//! The usual grammar of regular expressions, as a relation between patterns
//! and what may be written for them, and what it says of `rendering`.
//!
//! A choice binds least, a sequence tighter, a repetition tighter still;
//! characters and the empty pattern are atoms. Anything may be put in
//! parentheses, and must be where it binds less tightly than its place
//! asks.

use vstd::prelude::*;
use crate::regex_pattern::Pattern;

verus! {

/// `text` is a way of writing `pattern` where a phrase that binds at least
/// as tightly as `level` is wanted: the pattern's own form if it binds that
/// tightly, or any way of writing the pattern put in parentheses.
pub open spec fn writes(pattern: Pattern, level: nat, text: Seq<char>) -> bool
    decreases pattern, text.len(), 1nat,
{
    ||| pattern.rank() >= level && writes_plain(pattern, text)
    ||| {
        &&& text.len() >= 2
        &&& text.first() == '('
        &&& text.last() == ')'
        &&& writes(pattern, 0, text.subrange(1, text.len() - 1))
    }
}

/// `text` is a way of writing `pattern` with no parentheses round the whole
/// of it: its parts, each written as a phrase that binds at least as
/// tightly as the pattern, joined by the pattern's operator.
pub open spec fn writes_plain(pattern: Pattern, text: Seq<char>) -> bool
    decreases pattern, text.len(), 0nat,
{
    match pattern {
        Pattern::Empty => text.len() == 0,
        Pattern::Literal { character } => text == seq![character],
        Pattern::Concatenate { first, second } => exists|cut: int|
            #![trigger text.take(cut)]
            0 <= cut <= text.len() && writes(*first, 1, text.take(cut)) && writes(
                *second,
                1,
                text.skip(cut),
            ),
        Pattern::Choose { first, second } => exists|cut: int|
            #![trigger text.take(cut)]
            0 <= cut < text.len() && text[cut] == '|' && writes(*first, 0, text.take(cut))
                && writes(*second, 0, text.skip(cut + 1)),
        Pattern::Repeat { pattern } => text.len() >= 1 && text.last() == '*' && writes(
            *pattern,
            2,
            text.drop_last(),
        ),
    }
}

/// The parentheses of `rendering` are enough: what is written for a
/// pattern is, by the grammar, a way of writing that pattern, in every
/// place.
pub proof fn lemma_rendering_writes(pattern: Pattern, level: nat)
    ensures
        writes(pattern, level, pattern.bracketed(level)),
        writes_plain(pattern, pattern.rendering()),
    decreases pattern,
{
    let text = pattern.rendering();
    match pattern {
        Pattern::Empty => {},
        Pattern::Literal { character } => {},
        Pattern::Concatenate { first, second } => {
            lemma_rendering_writes(*first, 1);
            lemma_rendering_writes(*second, 1);
            let cut = first.bracketed(1).len() as int;
            assert(text.take(cut) =~= first.bracketed(1));
            assert(text.skip(cut) =~= second.bracketed(1));
            assert(writes(*first, 1, text.take(cut)));
        },
        Pattern::Choose { first, second } => {
            lemma_rendering_writes(*first, 0);
            lemma_rendering_writes(*second, 0);
            let cut = first.bracketed(0).len() as int;
            assert(text.take(cut) =~= first.bracketed(0));
            assert(text.skip(cut + 1) =~= second.bracketed(0));
            assert(text[cut] == '|');
            assert(writes(*first, 0, text.take(cut)));
        },
        Pattern::Repeat { pattern: inner } => {
            lemma_rendering_writes(*inner, 2);
            assert(text.drop_last() =~= inner.bracketed(2));
        },
    }
    assert(writes_plain(pattern, text));
    if pattern.rank() < level {
        let whole = pattern.bracketed(level);
        assert(whole.subrange(1, whole.len() - 1) =~= text);
        assert(writes(pattern, 0, text));
    }
}

/// The parentheses of `rendering` are no more than needed: no way of
/// writing a pattern for a place is shorter than what `bracketed` writes
/// for it.
pub proof fn lemma_rendering_shortest(pattern: Pattern, level: nat, text: Seq<char>)
    requires
        writes(pattern, level, text),
    ensures
        pattern.bracketed(level).len() <= text.len(),
        pattern.rendering().len() <= text.len(),
    decreases pattern, text.len(), 1nat,
{
    if pattern.rank() >= level && writes_plain(pattern, text) {
        lemma_plain_shortest(pattern, text);
    } else {
        let inner = text.subrange(1, text.len() - 1);
        lemma_rendering_shortest(pattern, 0, inner);
    }
}

/// No way of writing a pattern is shorter than its `rendering`.
pub proof fn lemma_plain_shortest(pattern: Pattern, text: Seq<char>)
    requires
        writes_plain(pattern, text),
    ensures
        pattern.rendering().len() <= text.len(),
    decreases pattern, text.len(), 0nat,
{
    match pattern {
        Pattern::Empty => {},
        Pattern::Literal { character } => {},
        Pattern::Concatenate { first, second } => {
            let cut = choose|cut: int|
                #![trigger text.take(cut)]
                0 <= cut <= text.len() && writes(*first, 1, text.take(cut)) && writes(
                    *second,
                    1,
                    text.skip(cut),
                );
            lemma_rendering_shortest(*first, 1, text.take(cut));
            lemma_rendering_shortest(*second, 1, text.skip(cut));
        },
        Pattern::Choose { first, second } => {
            let cut = choose|cut: int|
                #![trigger text.take(cut)]
                0 <= cut < text.len() && text[cut] == '|' && writes(*first, 0, text.take(cut))
                    && writes(*second, 0, text.skip(cut + 1));
            lemma_rendering_shortest(*first, 0, text.take(cut));
            lemma_rendering_shortest(*second, 0, text.skip(cut + 1));
        },
        Pattern::Repeat { pattern: inner } => {
            lemma_rendering_shortest(*inner, 2, text.drop_last());
        },
    }
}

} // verus!
