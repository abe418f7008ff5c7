//! The executable lexer: the classifier/grouper pass and the sign
//! normalizer, each proved to compute exactly what the mathematical model in
//! `grouping` and `folding` says.

use vstd::prelude::*;
use vstd::string::StrSliceExecFns;
use vstd::string::StringExecFns;

use crate::folding::find_fold;
use crate::folding::fix_folds;
use crate::folding::fold_at;
use crate::folding::is_fold_at;
use crate::folding::lemma_find_fold_from;
use crate::folding::lemma_fold_at_wf;
use crate::folding::normalized;
use crate::folding::toggle_sign;
use crate::grouping::classify;
use crate::grouping::drop_nulls;
use crate::grouping::grouped;
use crate::grouping::is_digit_char;
use crate::grouping::is_operator_char;
use crate::grouping::lemma_grouped_wf;
use crate::grouping::scan;
use crate::models::SpecToken;
use crate::models::Token;
use crate::models::TokenType;
use crate::models::lemma_toks_push;
use crate::models::lemma_toks_remove;
use crate::models::lemma_toks_update;
use crate::models::toks;
use crate::models::wf_toks;

verus! {

/// The lexer: the text to split, the recognized operator characters, and the
/// characters given special run-extension treatment (the decimal dot).
pub struct Lexer {
    pub content: String,
    pub operators: Vec<char>,
    pub ignores: Vec<char>,
}

/// Relies on String::push: it appends exactly the one given character at the
/// end of the string.
#[verifier::external_body]
fn push_char(s: &mut String, c: char)
    ensures
        final(s)@ == old(s)@.push(c),
{
    s.push(c);
}

/// Whether a character is a decimal digit.
fn is_digit(c: char) -> (r: bool)
    ensures
        r == is_digit_char(c),
{
    '0' <= c && c <= '9'
}

/// Whether a string holds the given character.
fn str_contains_char(s: &str, c: char) -> (r: bool)
    ensures
        r == s@.contains(c),
{
    let n = s.unicode_len();
    let mut i: usize = 0;
    while i < n
        invariant
            n == s@.len(),
            i <= n,
            forall|j: int| 0 <= j < i ==> s@[j] != c,
        decreases n - i,
    {
        if s.get_char(i) == c {
            return true;
        }
        i += 1;
    }
    false
}

/// Whether a string is exactly the one-character minus text.
fn is_minus(s: &String) -> (r: bool)
    ensures
        r == (s@ == seq!['-']),
{
    let st = s.as_str();
    if st.unicode_len() == 1 {
        let r = st.get_char(0) == '-';
        proof {
            if r {
                assert(s@ =~= seq!['-']);
            }
        }
        r
    } else {
        false
    }
}

/// The sign toggle on an operand's text: strip a leading minus, or prepend
/// one when none is there.
fn toggle_text(s: &String) -> (r: String)
    requires
        s@.len() >= 1,
    ensures
        r@ == toggle_sign(s@),
{
    let st = s.as_str();
    let n = st.unicode_len();
    if st.get_char(0) == '-' {
        let sub = st.substring_char(1, n);
        proof {
            assert(st@.subrange(1, n as int) =~= s@.skip(1));
        }
        sub.to_owned()
    } else {
        let mut r = String::new();
        push_char(&mut r, '-');
        r.append(st);
        proof {
            assert(Seq::<char>::empty().push('-') =~= seq!['-']);
        }
        r
    }
}

impl Lexer {
    /// The fixed configuration every lexer is built with: the four
    /// arithmetic operators, and the dot.
    pub open spec fn wf(&self) -> bool {
        &&& self.operators@ == seq!['+', '-', '*', '/']
        &&& self.ignores@ == seq!['.']
    }

    /// A lexer over the given text, with the fixed operator set.
    pub fn new(content: String) -> (r: Self)
        ensures
            r.wf(),
            r.content@ == content@,
    {
        let mut operators: Vec<char> = Vec::new();
        operators.push('+');
        operators.push('-');
        operators.push('*');
        operators.push('/');
        let mut ignores: Vec<char> = Vec::new();
        ignores.push('.');
        proof {
            assert(operators@ =~= seq!['+', '-', '*', '/']);
            assert(ignores@ =~= seq!['.']);
        }
        Lexer { content, operators, ignores }
    }

    /// Whether a character is one of the configured operator characters.
    fn is_operator(&self, c: char) -> (r: bool)
        requires
            self.wf(),
        ensures
            r == is_operator_char(c),
    {
        let n = self.operators.len();
        let mut i: usize = 0;
        while i < n
            invariant
                self.wf(),
                n == self.operators@.len(),
                i <= n,
                forall|j: int| 0 <= j < i ==> self.operators@[j] != c,
            decreases n - i,
        {
            if self.operators[i] == c {
                return true;
            }
            i += 1;
        }
        proof {
            assert(self.operators@[0] != c);
            assert(self.operators@[1] != c);
            assert(self.operators@[2] != c);
            assert(self.operators@[3] != c);
        }
        false
    }

    /// The whole pipeline: classify and group the characters of the text,
    /// drop the sentinel tokens, then normalize the minus signs.
    pub fn tokenise(&self) -> (r: Vec<Token>)
        requires
            self.wf(),
        ensures
            toks(r@) == normalized(grouped(self.content@)),
            wf_toks(toks(r@)),
    {
        let ghost sv = self.content@;
        let s = self.content.as_str();
        let n = s.unicode_len();
        let mut raw: Vec<Token> = Vec::new();
        let mut buffer = String::new();
        let mut cur: TokenType = TokenType::Null;
        let mut i: usize = 0;
        proof {
            assert(toks(raw@) =~= Seq::<SpecToken>::empty());
            assert(sv.skip(0) =~= sv);
            assert(toks(raw@) + scan(sv, Seq::empty(), TokenType::Null) =~= scan(
                sv,
                Seq::empty(),
                TokenType::Null,
            ));
        }
        while i < n
            invariant
                self.wf(),
                s@ == sv,
                n == sv.len(),
                i <= n,
                toks(raw@) + scan(sv.skip(i as int), buffer@, cur) == scan(
                    sv,
                    Seq::empty(),
                    TokenType::Null,
                ),
            decreases n - i,
        {
            let ghost rem = sv.skip(i as int);
            let c = s.get_char(i);
            proof {
                assert(rem[0] == c);
                assert(rem.skip(1) =~= sv.skip(i as int + 1));
            }
            let is_opnd = is_digit(c) || (c == '.' && !str_contains_char(buffer.as_str(), '.'));
            let ttype: TokenType = if is_opnd {
                TokenType::Operand
            } else if self.is_operator(c) {
                TokenType::Operator
            } else {
                TokenType::Other
            };
            proof {
                assert(ttype == classify(c, buffer@));
            }
            if ttype == TokenType::Operator {
                let ghost old_raw = raw@;
                let ghost old_buf = buffer@;
                let flushed = Token { content: buffer, token_type: cur };
                raw.push(flushed);
                let mut optext = String::new();
                push_char(&mut optext, c);
                let op_tok = Token { content: optext, token_type: TokenType::Operator };
                raw.push(op_tok);
                buffer = String::new();
                cur = TokenType::Null;
                proof {
                    lemma_toks_push(old_raw, flushed);
                    lemma_toks_push(old_raw.push(flushed), op_tok);
                    assert(op_tok@.text =~= seq![c]);
                    assert(toks(raw@) + scan(sv.skip(i as int + 1), buffer@, cur) =~= toks(
                        old_raw,
                    ) + scan(rem, old_buf, flushed.token_type));
                }
            } else if buffer.as_str().is_empty() && cur == TokenType::Null {
                push_char(&mut buffer, c);
                cur = ttype;
                proof {
                    assert(buffer@ =~= seq![c]);
                }
            } else if ttype == cur {
                let ghost old_buf = buffer@;
                push_char(&mut buffer, c);
                proof {
                    assert(buffer@ == old_buf.push(c));
                }
            } else {
                let ghost old_raw = raw@;
                let ghost old_buf = buffer@;
                let flushed = Token { content: buffer, token_type: cur };
                raw.push(flushed);
                buffer = String::new();
                push_char(&mut buffer, c);
                cur = ttype;
                proof {
                    lemma_toks_push(old_raw, flushed);
                    assert(buffer@ =~= seq![c]);
                    assert(toks(raw@) + scan(sv.skip(i as int + 1), buffer@, cur) =~= toks(
                        old_raw,
                    ) + scan(rem, old_buf, flushed.token_type));
                }
            }
            i += 1;
        }
        let ghost old_raw = raw@;
        let last = Token { content: buffer, token_type: cur };
        raw.push(last);
        proof {
            lemma_toks_push(old_raw, last);
            assert(sv.skip(n as int) =~= Seq::<char>::empty());
            assert(toks(raw@) =~= toks(old_raw) + scan(sv.skip(n as int), last@.text, cur));
            assert(toks(raw@) == scan(sv, Seq::empty(), TokenType::Null));
        }
        let ghost rawts = toks(raw@);
        let mut out: Vec<Token> = Vec::new();
        let m = raw.len();
        let mut j: usize = 0;
        proof {
            assert(toks(out@) =~= Seq::<SpecToken>::empty());
            assert(rawts.skip(0) =~= rawts);
            assert(toks(out@) + drop_nulls(rawts) =~= drop_nulls(rawts));
        }
        while j < m
            invariant
                m == raw@.len(),
                j <= m,
                rawts == toks(raw@),
                toks(out@) + drop_nulls(rawts.skip(j as int)) == drop_nulls(rawts),
            decreases m - j,
        {
            proof {
                assert(rawts.skip(j as int)[0] == rawts[j as int]);
                assert(rawts.skip(j as int).skip(1) =~= rawts.skip(j as int + 1));
            }
            if raw[j].token_type != TokenType::Null {
                let ghost old_out = out@;
                let kept = raw[j].duplicate();
                out.push(kept);
                proof {
                    lemma_toks_push(old_out, kept);
                    assert(toks(out@) + drop_nulls(rawts.skip(j as int + 1)) =~= toks(old_out) + (
                    seq![rawts[j as int]] + drop_nulls(rawts.skip(j as int + 1))));
                }
            }
            j += 1;
        }
        proof {
            assert(rawts.skip(m as int) =~= Seq::<SpecToken>::empty());
            assert(toks(out@) + drop_nulls(rawts.skip(m as int)) =~= toks(out@));
            assert(toks(out@) == grouped(sv));
            lemma_grouped_wf(sv);
            crate::folding::lemma_normalized_wf(grouped(sv));
        }
        self.clean_negatives(out)
    }

    /// The sign normalizer: fold every interior minus marker standing
    /// between an operator and an operand into that operand, leftmost first
    /// and rescanning from the front after each fold, then fold a leading
    /// minus token into the operand that follows it.
    pub fn clean_negatives(&self, data: Vec<Token>) -> (r: Vec<Token>)
        requires
            wf_toks(toks(data@)),
        ensures
            toks(r@) == normalized(toks(data@)),
    {
        let ghost ts0 = toks(data@);
        let mut result = data;
        if result.len() == 0 || result.len() == 1 {
            return result;
        }
        if result.len() == 2 {
            if is_minus(&result[0].content) && result[1].token_type == TokenType::Operand {
                let mut text = String::new();
                push_char(&mut text, '-');
                text.append(result[1].content.as_str());
                let tok = Token { content: text, token_type: TokenType::Operand };
                let mut out: Vec<Token> = Vec::new();
                out.push(tok);
                proof {
                    assert(Seq::<char>::empty().push('-') =~= seq!['-']);
                    assert(tok@.text == seq!['-'] + ts0[1].text);
                    assert(toks(out@) =~= seq![tok@]);
                }
                return out;
            }
            return result;
        }
        let mut done = false;
        while !done
            invariant
                ts0.len() >= 3,
                wf_toks(toks(result@)),
                result@.len() >= 2,
                fix_folds(toks(result@)) == fix_folds(ts0),
                done ==> find_fold(toks(result@), 0) == Option::None::<int>,
            decreases result@.len(), (if done {
                0int
            } else {
                1int
            }),
        {
            let ghost tsr = toks(result@);
            let n = result.len();
            let mut i: usize = 0;
            let mut found = false;
            while !found && i < n - 2
                invariant
                    n == result@.len(),
                    n >= 2,
                    tsr == toks(result@),
                    i <= n,
                    forall|j: int| 0 <= j < i ==> !is_fold_at(tsr, j),
                    found ==> i + 2 < n && is_fold_at(tsr, i as int),
                decreases n - i, (if found {
                    0int
                } else {
                    1int
                }),
            {
                if result[i].token_type == TokenType::Operator && is_minus(&result[i + 1].content)
                    && result[i + 2].token_type == TokenType::Operand {
                    found = true;
                } else {
                    proof {
                        assert(!is_fold_at(tsr, i as int));
                    }
                    i += 1;
                }
            }
            if found {
                let ghost before = result@;
                proof {
                    lemma_find_fold_from(tsr, i as int);
                    assert(find_fold(tsr, 0) == Option::Some(i as int));
                    lemma_fold_at_wf(tsr, i as int);
                    assert(tsr[i as int + 2].text.len() >= 1);
                }
                let new_text = toggle_text(&result[i + 2].content);
                let ty2 = result[i + 2].token_type;
                let replaced = Token { content: new_text, token_type: ty2 };
                result[i + 2] = replaced;
                result.remove(i + 1);
                proof {
                    lemma_toks_update(before, i as int + 2, replaced);
                    lemma_toks_remove(before.update(i as int + 2, replaced), i as int + 1);
                    assert(toks(result@) == fold_at(tsr, i as int));
                    assert(fix_folds(tsr) == fix_folds(fold_at(tsr, i as int)));
                }
            } else {
                proof {
                    let ghost tsr2 = toks(result@);
                    assert forall|j: int| 0 <= j implies !is_fold_at(tsr2, j) by {
                        if j < i {
                        } else {
                            assert(j + 2 >= n);
                        }
                    }
                    lemma_find_fold_from(tsr2, tsr2.len() as int);
                }
                done = true;
            }
        }
        let ghost fixed = toks(result@);
        proof {
            assert(fixed == fix_folds(ts0));
        }
        if is_minus(&result[0].content) && result[1].token_type == TokenType::Operand {
            proof {
                assert(fixed[1].text.len() >= 1);
            }
            let new_text = toggle_text(&result[1].content);
            let ty1 = result[1].token_type;
            let replaced = Token { content: new_text, token_type: ty1 };
            let ghost before = result@;
            result[1] = replaced;
            result.remove(0);
            proof {
                lemma_toks_update(before, 1, replaced);
                lemma_toks_remove(before.update(1, replaced), 0);
                assert(toks(result@) == normalized(ts0));
            }
        } else {
            proof {
                assert(toks(result@) == normalized(ts0));
            }
        }
        result
    }
}

} // verus!
