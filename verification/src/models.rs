//! The token data model: the category of a run of characters, the token
//! carried to callers, and the mathematical view a token has in contracts.

use vstd::prelude::*;

verus! {

/// The category a character run falls in. `Null` is an internal sentinel for
/// "no run in progress"; the lexer filters every `Null` token out before a
/// sequence becomes visible to a caller.
#[derive(PartialEq, Eq, Structural, Clone, Copy, Debug)]
pub enum TokenType {
    Operand,
    Operator,
    Other,
    Null,
}

/// One classified run of input characters.
#[derive(Clone, Debug)]
pub struct Token {
    pub content: String,
    pub token_type: TokenType,
}

/// The mathematical value of a token: its text as a sequence of characters
/// together with its category.
#[verifier::ext_equal]
pub ghost struct SpecToken {
    pub text: Seq<char>,
    pub ty: TokenType,
}

impl View for Token {
    type V = SpecToken;

    open spec fn view(&self) -> SpecToken {
        SpecToken { text: self.content@, ty: self.token_type }
    }
}

/// The views of a sequence of tokens.
pub open spec fn toks(v: Seq<Token>) -> Seq<SpecToken> {
    v.map_values(|t: Token| t@)
}

/// Text with no minus sign anywhere (and at least one character): the shape
/// an operand's digits-and-dot body has.
pub open spec fn plain_text(t: Seq<char>) -> bool {
    &&& t.len() >= 1
    &&& forall|i: int| 0 <= i < t.len() ==> t[i] != '-'
}

/// The shape an operand token's text keeps through sign normalization:
/// a plain body, optionally preceded by a single minus sign.
pub open spec fn operand_text(t: Seq<char>) -> bool {
    ||| plain_text(t)
    ||| (t.len() >= 2 && t[0] == '-' && plain_text(t.skip(1)))
}

/// Well-formedness of a token sequence handed to the sign normalizer: every
/// token has text, and operand text is a plain body with at most one leading
/// minus sign.
pub open spec fn wf_toks(ts: Seq<SpecToken>) -> bool {
    forall|i: int| 0 <= i < ts.len() ==> {
        &&& (#[trigger] ts[i]).text.len() >= 1
        &&& (ts[i].ty is Operand ==> operand_text(ts[i].text))
    }
}

pub proof fn lemma_toks_push(v: Seq<Token>, t: Token)
    ensures
        toks(v.push(t)) == toks(v).push(t@),
{
    assert(toks(v.push(t)) =~= toks(v).push(t@));
}

pub proof fn lemma_toks_update(v: Seq<Token>, i: int, t: Token)
    requires
        0 <= i < v.len(),
    ensures
        toks(v.update(i, t)) == toks(v).update(i, t@),
{
    assert(toks(v.update(i, t)) =~= toks(v).update(i, t@));
}

pub proof fn lemma_toks_remove(v: Seq<Token>, i: int)
    requires
        0 <= i < v.len(),
    ensures
        toks(v.remove(i)) == toks(v).remove(i),
{
    assert(toks(v.remove(i)) =~= toks(v).remove(i));
}

impl Token {
    /// A fresh token with the same text and category.
    pub fn duplicate(&self) -> (r: Token)
        ensures
            r@ == self@,
    {
        Token { content: self.content.clone(), token_type: self.token_type }
    }
}

} // verus!
