//! Tokens that the classifiers hand to the assemblers.

use vstd::prelude::*;

verus! {

/// What a heading does to the section structure around it.
#[derive(Debug, Clone, Copy, PartialEq, Eq, Structural)]
pub enum HeadingRole {
    /// Opens a section of its own.
    SectionBoundary,
    /// Belongs to the body fragment that is already open.
    InternalBody,
}

/// The classification of one physical line.
#[derive(Debug, Clone, PartialEq, Eq)]
pub enum MarkdownToken {
    BlankLine,
    Heading { level: u8, text: String, role: HeadingRole },
    TagsPrefix,
    Url,
    Body,
}

/// The model of a [`MarkdownToken`].
pub enum Token {
    Blank,
    Heading { level: u8, text: Seq<char>, role: HeadingRole },
    TagsPrefix,
    Url,
    Body,
}

impl View for MarkdownToken {
    type V = Token;

    open spec fn view(&self) -> Token {
        match *self {
            MarkdownToken::BlankLine => Token::Blank,
            MarkdownToken::Heading { level, text, role } => Token::Heading {
                level,
                text: text@,
                role,
            },
            MarkdownToken::TagsPrefix => Token::TagsPrefix,
            MarkdownToken::Url => Token::Url,
            MarkdownToken::Body => Token::Body,
        }
    }
}

/// The models of a vector of tokens.
pub open spec fn token_views(v: Seq<MarkdownToken>) -> Seq<Token> {
    v.map_values(|t: MarkdownToken| t@)
}

} // verus!
