//! The mathematical model of the classifier/grouper stage: each character is
//! classified as operand, operator or other, consecutive same-category
//! characters are collapsed into one token, every operator character stands
//! alone, and the `Null` sentinel tokens produced while flushing are dropped.

use vstd::prelude::*;

use crate::models::SpecToken;
use crate::models::TokenType;
use crate::models::operand_text;
use crate::models::plain_text;
use crate::models::wf_toks;

verus! {

/// A decimal digit.
pub open spec fn is_digit_char(c: char) -> bool {
    '0' <= c && c <= '9'
}

/// One of the four recognized arithmetic operator characters.
pub open spec fn is_operator_char(c: char) -> bool {
    c == '+' || c == '-' || c == '*' || c == '/'
}

/// Classification of one character, relative to the text of the run being
/// accumulated: a dot extends a number only while the run holds no dot yet.
pub open spec fn classify(c: char, buf: Seq<char>) -> TokenType {
    if is_digit_char(c) || (c == '.' && !buf.contains('.')) {
        TokenType::Operand
    } else if is_operator_char(c) {
        TokenType::Operator
    } else {
        TokenType::Other
    }
}

/// The run accumulator: the raw token sequence produced from the remaining
/// input `s`, given the text and category of the run in progress.  Operator
/// characters flush the run (possibly as an empty `Null` token) and stand
/// alone; a matching category extends the run; a differing one flushes it.
pub open spec fn scan(s: Seq<char>, buf: Seq<char>, ty: TokenType) -> Seq<SpecToken>
    decreases s.len(),
{
    if s.len() == 0 {
        seq![SpecToken { text: buf, ty: ty }]
    } else {
        let c = s[0];
        let cls = classify(c, buf);
        if cls is Operator {
            seq![
                SpecToken { text: buf, ty: ty },
                SpecToken { text: seq![c], ty: TokenType::Operator },
            ] + scan(s.skip(1), Seq::empty(), TokenType::Null)
        } else if buf.len() == 0 && ty is Null {
            scan(s.skip(1), seq![c], cls)
        } else if cls == ty {
            scan(s.skip(1), buf.push(c), ty)
        } else {
            seq![SpecToken { text: buf, ty: ty }] + scan(s.skip(1), seq![c], cls)
        }
    }
}

/// The mandatory cleanup pass: every `Null` sentinel token is removed.
pub open spec fn drop_nulls(ts: Seq<SpecToken>) -> Seq<SpecToken>
    decreases ts.len(),
{
    if ts.len() == 0 {
        Seq::empty()
    } else if ts[0].ty is Null {
        drop_nulls(ts.skip(1))
    } else {
        seq![ts[0]] + drop_nulls(ts.skip(1))
    }
}

/// What the classifier/grouper returns for an input string.
pub open spec fn grouped(s: Seq<char>) -> Seq<SpecToken> {
    drop_nulls(scan(s, Seq::empty(), TokenType::Null))
}

/// The concatenation of the texts of a token sequence.
pub open spec fn texts_of(ts: Seq<SpecToken>) -> Seq<char>
    decreases ts.len(),
{
    if ts.len() == 0 {
        Seq::empty()
    } else {
        ts[0].text + texts_of(ts.skip(1))
    }
}

/// The text of an operand run: digits and dots only, with at most one dot.
pub open spec fn operand_run_text(t: Seq<char>) -> bool {
    &&& forall|i: int| 0 <= i < t.len() ==> is_digit_char(#[trigger] t[i]) || t[i] == '.'
    &&& forall|i: int, j: int| 0 <= i < j < t.len() ==> !(#[trigger] t[i] == '.' && #[trigger] t[j] == '.')
}

/// What holds of every token the classifier/grouper emits.
pub open spec fn grouped_tok_wf(t: SpecToken) -> bool {
    &&& !(t.ty is Null)
    &&& t.text.len() >= 1
    &&& (t.ty is Operator ==> t.text.len() == 1 && is_operator_char(t.text[0]))
    &&& (t.ty is Operand ==> operand_run_text(t.text))
}

/// Well-formedness of the classifier/grouper's whole output.
pub open spec fn grouper_wf(ts: Seq<SpecToken>) -> bool {
    forall|i: int| 0 <= i < ts.len() ==> grouped_tok_wf(#[trigger] ts[i])
}

/// The accumulator state the scan maintains: the run category is `Null`
/// exactly while the buffer is empty, is never `Operator`, and an operand
/// run's buffer holds digits with at most one dot.
pub open spec fn run_state_ok(buf: Seq<char>, ty: TokenType) -> bool {
    &&& (ty is Null <==> buf.len() == 0)
    &&& !(ty is Operator)
    &&& (ty is Operand ==> operand_run_text(buf))
}

proof fn lemma_on_empty()
    ensures
        drop_nulls(Seq::<SpecToken>::empty()) == Seq::<SpecToken>::empty(),
        texts_of(Seq::<SpecToken>::empty()) == Seq::<char>::empty(),
{
}

pub(crate) proof fn lemma_on_single(t: SpecToken)
    ensures
        drop_nulls(seq![t]) == if t.ty is Null {
            Seq::<SpecToken>::empty()
        } else {
            seq![t]
        },
        texts_of(seq![t]) == t.text,
{
    lemma_on_empty();
    assert(seq![t].skip(1) =~= Seq::<SpecToken>::empty());
    if !(t.ty is Null) {
        assert(seq![seq![t][0]] + drop_nulls(seq![t].skip(1)) =~= seq![t]);
    }
    assert(seq![t][0].text + texts_of(seq![t].skip(1)) =~= t.text);
}

proof fn lemma_drop_nulls_concat(a: Seq<SpecToken>, b: Seq<SpecToken>)
    ensures
        drop_nulls(a + b) == drop_nulls(a) + drop_nulls(b),
    decreases a.len(),
{
    if a.len() == 0 {
        assert(a + b =~= b);
        assert(drop_nulls(a) + drop_nulls(b) =~= drop_nulls(b));
    } else {
        assert((a + b).skip(1) =~= a.skip(1) + b);
        assert((a + b)[0] == a[0]);
        lemma_drop_nulls_concat(a.skip(1), b);
        if a[0].ty is Null {
        } else {
            assert(seq![a[0]] + (drop_nulls(a.skip(1)) + drop_nulls(b)) =~= (seq![a[0]]
                + drop_nulls(a.skip(1))) + drop_nulls(b));
        }
    }
}

pub(crate) proof fn lemma_texts_of_concat(a: Seq<SpecToken>, b: Seq<SpecToken>)
    ensures
        texts_of(a + b) == texts_of(a) + texts_of(b),
    decreases a.len(),
{
    if a.len() == 0 {
        assert(a + b =~= b);
        assert(texts_of(a) + texts_of(b) =~= texts_of(b));
    } else {
        assert((a + b).skip(1) =~= a.skip(1) + b);
        assert((a + b)[0] == a[0]);
        lemma_texts_of_concat(a.skip(1), b);
        assert(a[0].text + (texts_of(a.skip(1)) + texts_of(b)) =~= (a[0].text + texts_of(
            a.skip(1),
        )) + texts_of(b));
    }
}

proof fn lemma_scan(s: Seq<char>, buf: Seq<char>, ty: TokenType)
    requires
        run_state_ok(buf, ty),
    ensures
        grouper_wf(drop_nulls(scan(s, buf, ty))),
        texts_of(drop_nulls(scan(s, buf, ty))) == buf + s,
    decreases s.len(),
{
    let flushed = SpecToken { text: buf, ty: ty };
    if s.len() == 0 {
        lemma_on_empty();
        lemma_on_single(flushed);
        if ty is Null {
            assert(buf + s =~= Seq::<char>::empty());
        } else {
            assert(buf + s =~= buf);
        }
    } else {
        let c = s[0];
        let cls = classify(c, buf);
        assert(s =~= seq![c] + s.skip(1));
        if cls is Operator {
            let op_tok = SpecToken { text: seq![c], ty: TokenType::Operator };
            let rest = scan(s.skip(1), Seq::empty(), TokenType::Null);
            lemma_scan(s.skip(1), Seq::empty(), TokenType::Null);
            lemma_drop_nulls_concat(seq![flushed, op_tok], rest);
            lemma_on_single(op_tok);
            lemma_on_single(flushed);
            assert(seq![flushed, op_tok] =~= seq![flushed] + seq![op_tok]);
            lemma_drop_nulls_concat(seq![flushed], seq![op_tok]);
            let head = drop_nulls(seq![flushed, op_tok]);
            if ty is Null {
                assert(head =~= seq![op_tok]);
            } else {
                assert(head =~= seq![flushed, op_tok]);
            }
            lemma_texts_of_concat(head, drop_nulls(rest));
            assert(drop_nulls(scan(s, buf, ty)) =~= head + drop_nulls(rest));
            assert(Seq::<char>::empty() + s.skip(1) =~= s.skip(1));
            if ty is Null {
                assert(texts_of(head) =~= seq![c]);
                assert(seq![c] + s.skip(1) =~= buf + s);
            } else {
                lemma_texts_of_concat(seq![flushed], seq![op_tok]);
                assert(texts_of(head) =~= buf + seq![c]);
                assert((buf + seq![c]) + s.skip(1) =~= buf + s);
            }
        } else if buf.len() == 0 && ty is Null {
            assert(!(cls is Null));
            lemma_scan(s.skip(1), seq![c], cls);
            assert(seq![c] + s.skip(1) =~= buf + s);
        } else {
            assert(!(ty is Null));
            if cls == ty {
                if ty is Operand {
                    assert(operand_run_text(buf.push(c))) by {
                        if c == '.' {
                            assert(forall|i: int| 0 <= i < buf.len() ==> buf[i] != '.');
                        }
                    }
                }
                lemma_scan(s.skip(1), buf.push(c), ty);
                assert(buf.push(c) + s.skip(1) =~= buf + s);
            } else {
                let rest = scan(s.skip(1), seq![c], cls);
                lemma_scan(s.skip(1), seq![c], cls);
                lemma_drop_nulls_concat(seq![flushed], rest);
                lemma_on_single(flushed);
                lemma_texts_of_concat(seq![flushed], drop_nulls(rest));
                assert(drop_nulls(scan(s, buf, ty)) =~= seq![flushed] + drop_nulls(rest));
                assert(buf + (seq![c] + s.skip(1)) =~= buf + s);
            }
        }
    }
}

/// Law: the classifier/grouper never emits a zero-length token nor a `Null`
/// sentinel token; every operator token is one operator character, and every
/// operand token is digits and dots with at most one dot.
pub proof fn lemma_grouped_wf(s: Seq<char>)
    ensures
        grouper_wf(grouped(s)),
        wf_toks(grouped(s)),
        forall|i: int|
            0 <= i < grouped(s).len() && (#[trigger] grouped(s)[i]).ty is Operand ==> plain_text(
                grouped(s)[i].text,
            ),
{
    lemma_scan(s, Seq::empty(), TokenType::Null);
    let ts = grouped(s);
    assert forall|i: int| 0 <= i < ts.len() implies {
        &&& (#[trigger] ts[i]).text.len() >= 1
        &&& (ts[i].ty is Operand ==> operand_text(ts[i].text))
    } by {
        assert(grouped_tok_wf(ts[i]));
        if ts[i].ty is Operand {
            assert(forall|j: int| 0 <= j < ts[i].text.len() ==> #[trigger] ts[i].text[j] != '-');
            assert(plain_text(ts[i].text));
        }
    }
}

/// Law: concatenating the texts of the classifier/grouper's tokens, in
/// order, yields back exactly the input character sequence.
pub proof fn lemma_grouped_text(s: Seq<char>)
    ensures
        texts_of(grouped(s)) == s,
{
    lemma_scan(s, Seq::empty(), TokenType::Null);
    assert(Seq::<char>::empty() + s =~= s);
}

} // verus!
