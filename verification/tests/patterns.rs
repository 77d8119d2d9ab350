use naiveregex::regex_pattern::Pattern;

fn literal(character: char) -> Pattern {
    Pattern::Literal { character }
}

fn concatenate(first: Pattern, second: Pattern) -> Pattern {
    Pattern::Concatenate { first: Box::new(first), second: Box::new(second) }
}

fn either(first: Pattern, second: Pattern) -> Pattern {
    Pattern::Choose { first: Box::new(first), second: Box::new(second) }
}

fn repeat(pattern: Pattern) -> Pattern {
    Pattern::Repeat { pattern: Box::new(pattern) }
}

#[test]
fn test_empty() {
    assert_eq!(Pattern::Empty.precedence(), 3);
    assert_eq!(Pattern::Empty.render().as_str(), "");
}

#[test]
fn test_literal() {
    let literal = Pattern::Literal { character: 'a' };

    assert_eq!(literal.precedence(), 3);
    assert_eq!(literal.render().as_str(), "a");
}

#[test]
fn test_concatenate() {
    let literal = Pattern::Literal { character: 'a' };
    let concat =
        Pattern::Concatenate { first: Box::new(Pattern::Empty), second: Box::new(literal) };

    assert_eq!(concat.precedence(), 1);
    assert_eq!(concat.render().as_str(), "a");
}

#[test]
fn test_choose() {
    let literal = Pattern::Literal { character: 'a' };
    let choice = Pattern::Choose { first: Box::new(Pattern::Empty), second: Box::new(literal) };

    assert_eq!(choice.precedence(), 0);
    assert_eq!(choice.render().as_str(), "|a");
}

#[test]
fn test_repeat() {
    let literal = Pattern::Literal { character: 'a' };
    let choice = Pattern::Choose { first: Box::new(Pattern::Empty), second: Box::new(literal) };
    let repeat = Pattern::Repeat { pattern: Box::new(choice) };

    assert_eq!(repeat.precedence(), 2);
    assert_eq!(repeat.render().as_str(), "(|a)*");
}

#[test]
fn literal_renders_its_character() {
    assert_eq!(literal('x').render(), "x");
    assert_eq!(literal('é').render(), "é");
    assert_eq!(literal('*').render(), "*");
}

#[test]
fn bracket_wraps_only_what_binds_less_tightly() {
    let sequence = concatenate(literal('a'), literal('b'));
    assert_eq!(sequence.bracket(0), "ab");
    assert_eq!(sequence.bracket(1), "ab");
    assert_eq!(sequence.bracket(2), "(ab)");
    assert_eq!(sequence.bracket(3), "(ab)");
    let choice = either(literal('a'), literal('b'));
    assert_eq!(choice.bracket(0), "a|b");
    assert_eq!(choice.bracket(1), "(a|b)");
    let star = repeat(literal('a'));
    assert_eq!(star.bracket(2), "a*");
    assert_eq!(star.bracket(3), "(a*)");
    assert_eq!(literal('a').bracket(3), "a");
    assert_eq!(Pattern::Empty.bracket(3), "");
    assert_eq!(Pattern::Empty.bracket(4), "()");
}

#[test]
fn choice_inside_a_sequence_is_wrapped() {
    let pattern = concatenate(either(literal('a'), literal('b')), literal('c'));
    assert_eq!(pattern.render(), "(a|b)c");
    let pattern = concatenate(literal('a'), either(literal('b'), literal('c')));
    assert_eq!(pattern.render(), "a(b|c)");
}

#[test]
fn sequence_inside_a_choice_is_not_wrapped() {
    let pattern = either(concatenate(literal('a'), literal('b')), literal('c'));
    assert_eq!(pattern.render(), "ab|c");
    let pattern = either(literal('a'), either(literal('b'), literal('c')));
    assert_eq!(pattern.render(), "a|b|c");
}

#[test]
fn repetition_wraps_sequences_and_choices() {
    assert_eq!(repeat(concatenate(literal('a'), literal('b'))).render(), "(ab)*");
    assert_eq!(repeat(either(literal('a'), literal('b'))).render(), "(a|b)*");
    assert_eq!(repeat(literal('a')).render(), "a*");
    assert_eq!(repeat(repeat(literal('a'))).render(), "a**");
    assert_eq!(repeat(Pattern::Empty).render(), "*");
}

#[test]
fn repetition_inside_a_sequence_is_not_wrapped() {
    let pattern = concatenate(repeat(literal('a')), literal('b'));
    assert_eq!(pattern.render(), "a*b");
    let pattern = concatenate(concatenate(literal('a'), literal('b')), literal('c'));
    assert_eq!(pattern.render(), "abc");
}

#[test]
fn deep_pattern_renders_with_the_fewest_parentheses() {
    let pattern = repeat(concatenate(
        either(literal('a'), concatenate(literal('b'), repeat(literal('c')))),
        repeat(either(Pattern::Empty, literal('d'))),
    ));
    assert_eq!(pattern.render(), "((a|bc*)(|d)*)*");
}

#[test]
fn inspect_puts_the_rendering_between_slashes() {
    assert_eq!(Pattern::Empty.inspect(), "//");
    assert_eq!(literal('a').inspect(), "/a/");
    assert_eq!(repeat(either(Pattern::Empty, literal('a'))).inspect(), "/(|a)*/");
}

#[test]
fn precedence_goes_by_the_variant_alone() {
    assert_eq!(concatenate(Pattern::Empty, Pattern::Empty).precedence(), 1);
    assert_eq!(either(repeat(literal('a')), literal('b')).precedence(), 0);
    assert_eq!(repeat(either(literal('a'), literal('b'))).precedence(), 2);
}
