use django_rusty_templates::lex::common::LexerError;
use django_rusty_templates::lex::ifcondition::{
    IfConditionLexer, IfConditionToken, IfConditionTokenType,
};
use django_rusty_templates::lex::tag::{lex_tag, TagParts};
use django_rusty_templates::types::TemplateString;

fn lex(template: &str, at: (usize, usize)) -> Vec<Result<IfConditionToken, LexerError>> {
    let mut lexer = IfConditionLexer::new(template.into(), TagParts { at });
    lexer.tokens()
}

fn token(at: (usize, usize), token_type: IfConditionTokenType) -> IfConditionToken {
    IfConditionToken { at, token_type }
}

#[test]
fn test_lex_variable() {
    let template = "{% if foo %}";
    let parts = TagParts { at: (6, 3) };
    let mut lexer = IfConditionLexer::new(template.into(), parts);
    let tokens: Vec<_> = lexer.tokens();

    let foo = IfConditionToken {
        at: (6, 3),
        token_type: IfConditionTokenType::Variable,
    };
    assert_eq!(tokens, vec![Ok(foo)]);
}

#[test]
fn test_lex_numeric() {
    let template = "{% if 5.3 %}";
    let parts = TagParts { at: (6, 3) };
    let mut lexer = IfConditionLexer::new(template.into(), parts);
    let tokens: Vec<_> = lexer.tokens();

    let numeric = IfConditionToken {
        at: (6, 3),
        token_type: IfConditionTokenType::Numeric,
    };
    assert_eq!(tokens, vec![Ok(numeric)]);
}

#[test]
fn test_lex_text() {
    let template = "{% if 'foo' %}";
    let parts = TagParts { at: (6, 5) };
    let mut lexer = IfConditionLexer::new(template.into(), parts);
    let tokens: Vec<_> = lexer.tokens();

    let text = IfConditionToken {
        at: (6, 5),
        token_type: IfConditionTokenType::Text,
    };
    assert_eq!(tokens, vec![Ok(text)]);
}

#[test]
fn test_lex_text_double_quotes() {
    let template = "{% if \"foo\" %}";
    let parts = TagParts { at: (6, 5) };
    let mut lexer = IfConditionLexer::new(template.into(), parts);
    let tokens: Vec<_> = lexer.tokens();

    let text = IfConditionToken {
        at: (6, 5),
        token_type: IfConditionTokenType::Text,
    };
    assert_eq!(tokens, vec![Ok(text)]);
}

#[test]
fn test_lex_translated() {
    let template = "{% if _('foo') %}";
    let parts = TagParts { at: (6, 8) };
    let mut lexer = IfConditionLexer::new(template.into(), parts);
    let tokens: Vec<_> = lexer.tokens();

    let text = IfConditionToken {
        at: (6, 8),
        token_type: IfConditionTokenType::TranslatedText,
    };
    assert_eq!(tokens, vec![Ok(text)]);
}

#[test]
fn test_lex_and() {
    let template = "{% if and %}";
    let parts = TagParts { at: (6, 3) };
    let mut lexer = IfConditionLexer::new(template.into(), parts);
    let tokens: Vec<_> = lexer.tokens();

    let and = IfConditionToken {
        at: (6, 3),
        token_type: IfConditionTokenType::And,
    };
    assert_eq!(tokens, vec![Ok(and)]);
}

#[test]
fn test_lex_or() {
    let template = "{% if or %}";
    let parts = TagParts { at: (6, 2) };
    let mut lexer = IfConditionLexer::new(template.into(), parts);
    let tokens: Vec<_> = lexer.tokens();

    let or = IfConditionToken {
        at: (6, 2),
        token_type: IfConditionTokenType::Or,
    };
    assert_eq!(tokens, vec![Ok(or)]);
}

#[test]
fn test_lex_not() {
    let template = "{% if not %}";
    let parts = TagParts { at: (6, 3) };
    let mut lexer = IfConditionLexer::new(template.into(), parts);
    let tokens: Vec<_> = lexer.tokens();

    let not = IfConditionToken {
        at: (6, 3),
        token_type: IfConditionTokenType::Not,
    };
    assert_eq!(tokens, vec![Ok(not)]);
}

#[test]
fn test_lex_equal() {
    let template = "{% if == %}";
    let parts = TagParts { at: (6, 2) };
    let mut lexer = IfConditionLexer::new(template.into(), parts);
    let tokens: Vec<_> = lexer.tokens();

    let equal = IfConditionToken {
        at: (6, 2),
        token_type: IfConditionTokenType::Equal,
    };
    assert_eq!(tokens, vec![Ok(equal)]);
}

#[test]
fn test_lex_not_equal() {
    let template = "{% if != %}";
    let parts = TagParts { at: (6, 2) };
    let mut lexer = IfConditionLexer::new(template.into(), parts);
    let tokens: Vec<_> = lexer.tokens();

    let not_equal = IfConditionToken {
        at: (6, 2),
        token_type: IfConditionTokenType::NotEqual,
    };
    assert_eq!(tokens, vec![Ok(not_equal)]);
}

#[test]
fn test_lex_less_than() {
    let template = "{% if < %}";
    let parts = TagParts { at: (6, 1) };
    let mut lexer = IfConditionLexer::new(template.into(), parts);
    let tokens: Vec<_> = lexer.tokens();

    let less_than = IfConditionToken {
        at: (6, 1),
        token_type: IfConditionTokenType::LessThan,
    };
    assert_eq!(tokens, vec![Ok(less_than)]);
}

#[test]
fn test_lex_greater_than() {
    let template = "{% if > %}";
    let parts = TagParts { at: (6, 1) };
    let mut lexer = IfConditionLexer::new(template.into(), parts);
    let tokens: Vec<_> = lexer.tokens();

    let greater_than = IfConditionToken {
        at: (6, 1),
        token_type: IfConditionTokenType::GreaterThan,
    };
    assert_eq!(tokens, vec![Ok(greater_than)]);
}

#[test]
fn test_lex_less_equal() {
    let template = "{% if <= %}";
    let parts = TagParts { at: (6, 2) };
    let mut lexer = IfConditionLexer::new(template.into(), parts);
    let tokens: Vec<_> = lexer.tokens();

    let less_equal = IfConditionToken {
        at: (6, 2),
        token_type: IfConditionTokenType::LessThanEqual,
    };
    assert_eq!(tokens, vec![Ok(less_equal)]);
}

#[test]
fn test_lex_greater_equal() {
    let template = "{% if >= %}";
    let parts = TagParts { at: (6, 2) };
    let mut lexer = IfConditionLexer::new(template.into(), parts);
    let tokens: Vec<_> = lexer.tokens();

    let greater_equal = IfConditionToken {
        at: (6, 2),
        token_type: IfConditionTokenType::GreaterThanEqual,
    };
    assert_eq!(tokens, vec![Ok(greater_equal)]);
}

#[test]
fn test_lex_in() {
    let template = "{% if in %}";
    let parts = TagParts { at: (6, 2) };
    let mut lexer = IfConditionLexer::new(template.into(), parts);
    let tokens: Vec<_> = lexer.tokens();

    let in_ = IfConditionToken {
        at: (6, 2),
        token_type: IfConditionTokenType::In,
    };
    assert_eq!(tokens, vec![Ok(in_)]);
}

#[test]
fn test_lex_not_in() {
    let template = "{% if not in %}";
    let parts = TagParts { at: (6, 6) };
    let mut lexer = IfConditionLexer::new(template.into(), parts);
    let tokens: Vec<_> = lexer.tokens();

    let not_in = IfConditionToken {
        at: (6, 6),
        token_type: IfConditionTokenType::NotIn,
    };
    assert_eq!(tokens, vec![Ok(not_in)]);
}

#[test]
fn test_lex_is() {
    let template = "{% if is %}";
    let parts = TagParts { at: (6, 2) };
    let mut lexer = IfConditionLexer::new(template.into(), parts);
    let tokens: Vec<_> = lexer.tokens();

    let is = IfConditionToken {
        at: (6, 2),
        token_type: IfConditionTokenType::Is,
    };
    assert_eq!(tokens, vec![Ok(is)]);
}

#[test]
fn test_lex_is_not() {
    let template = "{% if is not %}";
    let parts = TagParts { at: (6, 6) };
    let mut lexer = IfConditionLexer::new(template.into(), parts);
    let tokens: Vec<_> = lexer.tokens();

    let is_not = IfConditionToken {
        at: (6, 6),
        token_type: IfConditionTokenType::IsNot,
    };
    assert_eq!(tokens, vec![Ok(is_not)]);
}

#[test]
fn test_lex_complex_condition() {
    let template = "{% if foo.bar|default:'spam' and count >= 1.5 or enabled is not False %}";
    let parts = TagParts { at: (6, 63) };
    let mut lexer = IfConditionLexer::new(template.into(), parts);
    let tokens: Vec<_> = lexer.tokens();

    let foobar = IfConditionToken {
        at: (6, 22),
        token_type: IfConditionTokenType::Variable,
    };
    let and = IfConditionToken {
        at: (29, 3),
        token_type: IfConditionTokenType::And,
    };
    let count = IfConditionToken {
        at: (33, 5),
        token_type: IfConditionTokenType::Variable,
    };
    let greater_equal = IfConditionToken {
        at: (39, 2),
        token_type: IfConditionTokenType::GreaterThanEqual,
    };
    let numeric = IfConditionToken {
        at: (42, 3),
        token_type: IfConditionTokenType::Numeric,
    };
    let or = IfConditionToken {
        at: (46, 2),
        token_type: IfConditionTokenType::Or,
    };
    let enabled = IfConditionToken {
        at: (49, 7),
        token_type: IfConditionTokenType::Variable,
    };
    let is_not = IfConditionToken {
        at: (57, 6),
        token_type: IfConditionTokenType::IsNot,
    };
    let falsey = IfConditionToken {
        at: (64, 5),
        token_type: IfConditionTokenType::Variable,
    };
    let condition = vec![
        Ok(foobar),
        Ok(and),
        Ok(count),
        Ok(greater_equal),
        Ok(numeric),
        Ok(or),
        Ok(enabled),
        Ok(is_not),
        Ok(falsey),
    ];
    assert_eq!(tokens, condition);
}

#[test]
fn test_lex_invalid_remainder() {
    let template = "{% if 'foo'remainder %}";
    let parts = TagParts { at: (6, 14) };
    let mut lexer = IfConditionLexer::new(template.into(), parts);
    let error = lexer.next().unwrap().unwrap_err();
    assert_eq!(error, LexerError::InvalidRemainder { at: (11, 9).into() });
}

#[test]
fn invalid_remainder_stops_the_stream() {
    let template = "'foo'remainder and bar";
    let tokens = lex(template, (0, template.len()));
    assert_eq!(tokens, vec![Err(LexerError::InvalidRemainder { at: (5, 9) })]);
    let mut lexer = IfConditionLexer::new(template.into(), TagParts { at: (0, template.len()) });
    assert!(lexer.next().unwrap().is_err());
    assert_eq!(lexer.next(), None);
    assert_eq!(lexer.next(), None);
}

#[test]
fn numeric_then_letters_is_invalid_remainder() {
    let tokens = lex("5.3abc", (0, 6));
    assert_eq!(tokens, vec![Err(LexerError::InvalidRemainder { at: (3, 3) })]);
}

#[test]
fn negative_numeric_spans_sign() {
    let tokens = lex("x -1.5", (2, 4));
    assert_eq!(tokens, vec![Ok(token((2, 4), IfConditionTokenType::Numeric))]);
}

#[test]
fn not_without_in_is_not() {
    let template = "not x";
    let tokens = lex(template, (0, 5));
    assert_eq!(
        tokens,
        vec![
            Ok(token((0, 3), IfConditionTokenType::Not)),
            Ok(token((4, 1), IfConditionTokenType::Variable)),
        ]
    );
}

#[test]
fn not_in_across_several_spaces() {
    let template = "a not   in b";
    let tokens = lex(template, (0, 12));
    assert_eq!(
        tokens,
        vec![
            Ok(token((0, 1), IfConditionTokenType::Variable)),
            Ok(token((2, 8), IfConditionTokenType::NotIn)),
            Ok(token((11, 1), IfConditionTokenType::Variable)),
        ]
    );
}

#[test]
fn is_followed_by_other_word_is_is() {
    let tokens = lex("is none", (0, 7));
    assert_eq!(
        tokens,
        vec![
            Ok(token((0, 2), IfConditionTokenType::Is)),
            Ok(token((3, 4), IfConditionTokenType::Variable)),
        ]
    );
}

#[test]
fn not_in_word_prefix_is_not() {
    let tokens = lex("not inner", (0, 9));
    assert_eq!(
        tokens,
        vec![
            Ok(token((0, 3), IfConditionTokenType::Not)),
            Ok(token((4, 5), IfConditionTokenType::Variable)),
        ]
    );
}

#[test]
fn quoted_text_may_hold_spaces() {
    let tokens = lex("'a b' or c", (0, 10));
    assert_eq!(
        tokens,
        vec![
            Ok(token((0, 5), IfConditionTokenType::Text)),
            Ok(token((6, 2), IfConditionTokenType::Or)),
            Ok(token((9, 1), IfConditionTokenType::Variable)),
        ]
    );
}

#[test]
fn unterminated_text_is_an_error() {
    let tokens = lex("a == 'foo", (0, 9));
    assert_eq!(
        tokens,
        vec![
            Ok(token((0, 1), IfConditionTokenType::Variable)),
            Ok(token((2, 2), IfConditionTokenType::Equal)),
            Err(LexerError::UnterminatedLiteral { at: (5, 4) }),
        ]
    );
}

#[test]
fn translated_without_quote_is_an_error() {
    let err = LexerError::InvalidTranslatedText { at: (0, 2) };
    assert_eq!(lex("_(foo)", (0, 6)), vec![Err(err)]);
    assert_eq!(lex("_(", (0, 2)), vec![Err(LexerError::InvalidTranslatedText { at: (0, 2) })]);
}

#[test]
fn translated_without_closing_paren_is_an_error() {
    assert_eq!(
        lex("_('foo' x", (0, 9)),
        vec![Err(LexerError::UnterminatedLiteral { at: (0, 7) })]
    );
    assert_eq!(
        lex("_('foo", (0, 6)),
        vec![Err(LexerError::UnterminatedLiteral { at: (0, 6) })]
    );
}

#[test]
fn underscore_without_paren_is_variable() {
    assert_eq!(lex("_foo", (0, 4)), vec![Ok(token((0, 4), IfConditionTokenType::Variable))]);
}

#[test]
fn error_messages_name_the_kind() {
    assert_eq!(LexerError::UnterminatedLiteral { at: (0, 1) }.message(), "Unterminated literal");
    assert_eq!(
        LexerError::InvalidRemainder { at: (0, 1) }.message(),
        "Could not parse the remainder"
    );
    assert_eq!(
        LexerError::InvalidTranslatedText { at: (0, 1) }.message(),
        "Expected a quoted string after '_('"
    );
}

#[test]
fn spans_resolve_to_the_lexed_text() {
    let template = "{% if foo.bar|default:'spam' and count >= 1.5 or enabled is not False %}";
    let source = TemplateString(template);
    let words = [
        "foo.bar|default:'spam'",
        "and",
        "count",
        ">=",
        "1.5",
        "or",
        "enabled",
        "is not",
        "False",
    ];
    let tokens = lex(template, (6, 63));
    assert_eq!(tokens.len(), words.len());
    for (t, w) in tokens.iter().zip(words.iter()) {
        let t = t.as_ref().unwrap();
        assert_eq!(source.content(t.at), *w);
    }
}

#[test]
fn spans_count_bytes_of_unicode_text() {
    let template = "{% if 'héllo' == naïve %}";
    let tokens = lex(template, (6, 18));
    assert_eq!(
        tokens,
        vec![
            Ok(token((6, 8), IfConditionTokenType::Text)),
            Ok(token((15, 2), IfConditionTokenType::Equal)),
            Ok(token((18, 6), IfConditionTokenType::Variable)),
        ]
    );
    assert_eq!(TemplateString(template).content((18, 6)), "naïve");
}

#[test]
fn unicode_whitespace_separates_words() {
    let template = "a\u{3000}or\u{3000}b";
    let tokens = lex(template, (0, template.len()));
    assert_eq!(
        tokens,
        vec![
            Ok(token((0, 1), IfConditionTokenType::Variable)),
            Ok(token((4, 2), IfConditionTokenType::Or)),
            Ok(token((9, 1), IfConditionTokenType::Variable)),
        ]
    );
}

#[test]
fn lexing_twice_gives_the_same_tokens() {
    let template = "{% if a not in b or 'x'y %}";
    assert_eq!(lex(template, (6, 18)), lex(template, (6, 18)));
}

#[test]
fn tag_parts_feed_the_condition_lexer() {
    let template = "{% if  x <= 3 %}";
    let tag = &template[2..template.len() - 2];
    let (name, parts) = lex_tag(tag, 2).unwrap().unwrap();
    assert_eq!(name.content(template), "if");
    let mut lexer = IfConditionLexer::new(TemplateString(template), parts.unwrap());
    assert_eq!(
        lexer.tokens(),
        vec![
            Ok(token((7, 1), IfConditionTokenType::Variable)),
            Ok(token((9, 2), IfConditionTokenType::LessThanEqual)),
            Ok(token((12, 1), IfConditionTokenType::Numeric)),
        ]
    );
}

#[test]
fn empty_expression_yields_nothing() {
    assert_eq!(lex("{% if %}", (6, 0)), vec![]);
}
