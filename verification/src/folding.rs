//! The mathematical model of the sign normalizer: the fixed-point loop that
//! folds interior minus markers into the operand that follows them, the final
//! leading-minus fold, and the short-sequence branches.

use vstd::prelude::*;

use crate::grouping::grouped;
use crate::grouping::lemma_grouped_text;
use crate::grouping::lemma_on_single;
use crate::grouping::lemma_texts_of_concat;
use crate::grouping::texts_of;
use crate::models::SpecToken;
use crate::models::TokenType;
use crate::models::operand_text;
use crate::models::plain_text;
use crate::models::wf_toks;

verus! {

/// Toggling the sign carried by an operand's text: strip a leading minus if
/// one is there, otherwise prepend one.
pub open spec fn toggle_sign(t: Seq<char>) -> Seq<char> {
    if t.len() >= 1 && t[0] == '-' {
        t.skip(1)
    } else {
        seq!['-'] + t
    }
}

/// The interior fold pattern at position `i`: an operator, then a token whose
/// text is exactly `-`, then an operand.
pub open spec fn is_fold_at(ts: Seq<SpecToken>, i: int) -> bool {
    &&& 0 <= i <= ts.len() - 3
    &&& ts[i].ty is Operator
    &&& ts[i + 1].text == seq!['-']
    &&& ts[i + 2].ty is Operand
}

/// The position of the first interior fold pattern at or after `i`, if any.
pub open spec fn find_fold(ts: Seq<SpecToken>, i: int) -> Option<int>
    decreases ts.len() - i,
{
    if i > ts.len() - 3 {
        None
    } else if is_fold_at(ts, i) {
        Some(i)
    } else {
        find_fold(ts, i + 1)
    }
}

/// One fold: toggle the operand's sign and remove the minus marker.
pub open spec fn fold_at(ts: Seq<SpecToken>, i: int) -> Seq<SpecToken> {
    ts.update(i + 2, SpecToken { text: toggle_sign(ts[i + 2].text), ty: ts[i + 2].ty }).remove(
        i + 1,
    )
}

/// The fixed point of folding at the leftmost interior pattern, restarting
/// the search from the front after every fold.
pub open spec fn fix_folds(ts: Seq<SpecToken>) -> Seq<SpecToken>
    decreases ts.len(),
    via check_fix_folds_decreases
{
    if ts.len() < 3 {
        ts
    } else {
        match find_fold(ts, 0) {
            Option::None => ts,
            Option::Some(i) => fix_folds(fold_at(ts, i)),
        }
    }
}

#[via_fn]
proof fn check_fix_folds_decreases(ts: Seq<SpecToken>) {
    if ts.len() >= 3 {
        if let Option::Some(i) = find_fold(ts, 0) {
            lemma_find_fold_some(ts, 0, i);
            assert(fold_at(ts, i).len() == ts.len() - 1);
        }
    }
}

/// The final, separate check: a leading minus token directly before an
/// operand is folded into it.
pub open spec fn fold_leading(ts: Seq<SpecToken>) -> Seq<SpecToken> {
    if ts.len() >= 2 && ts[0].text == seq!['-'] && ts[1].ty is Operand {
        ts.update(1, SpecToken { text: toggle_sign(ts[1].text), ty: ts[1].ty }).remove(0)
    } else {
        ts
    }
}

/// What the sign normalizer returns: sequences of length at most one pass
/// through; a pair starting with a minus token collapses into one negative
/// operand; longer sequences run the fixed-point loop and then the leading
/// fold.
pub open spec fn normalized(ts: Seq<SpecToken>) -> Seq<SpecToken> {
    if ts.len() <= 1 {
        ts
    } else if ts.len() == 2 {
        if ts[0].text == seq!['-'] && ts[1].ty is Operand {
            seq![SpecToken { text: seq!['-'] + ts[1].text, ty: TokenType::Operand }]
        } else {
            ts
        }
    } else {
        fold_leading(fix_folds(ts))
    }
}

/// Toggling preserves the well-formed shape of operand text, yields text
/// again nonempty, and never yields the bare minus text.
pub proof fn lemma_toggle_wf(t: Seq<char>)
    requires
        operand_text(t),
    ensures
        operand_text(toggle_sign(t)),
        toggle_sign(t).len() >= 1,
        toggle_sign(t) != seq!['-'],
{
    if t.len() >= 1 && t[0] == '-' {
        assert(plain_text(t.skip(1)));
        assert(toggle_sign(t)[0] != '-');
    } else {
        assert(plain_text(t));
        let r = seq!['-'] + t;
        assert(r.skip(1) =~= t);
        assert(r[0] == '-' && r.len() >= 2);
        assert(r[1] != '-');
    }
}

/// A fold at a pattern position keeps the sequence well formed and shortens
/// it by one.
pub proof fn lemma_fold_at_wf(ts: Seq<SpecToken>, i: int)
    requires
        wf_toks(ts),
        is_fold_at(ts, i),
    ensures
        wf_toks(fold_at(ts, i)),
        fold_at(ts, i).len() == ts.len() - 1,
{
    lemma_toggle_wf(ts[i + 2].text);
    let u = ts.update(i + 2, SpecToken { text: toggle_sign(ts[i + 2].text), ty: ts[i + 2].ty });
    let r = u.remove(i + 1);
    assert forall|j: int| 0 <= j < r.len() implies {
        &&& (#[trigger] r[j]).text.len() >= 1
        &&& (r[j].ty is Operand ==> operand_text(r[j].text))
    } by {
        if j < i + 1 {
            assert(r[j] == ts[j]);
        } else if j == i + 1 {
            assert(r[j] == u[i + 2]);
        } else {
            assert(r[j] == ts[j + 1]);
        }
    }
}

/// The fixed-point loop keeps the sequence well formed, never lengthens it,
/// and never shrinks it below two tokens.
pub proof fn lemma_fix_folds_wf(ts: Seq<SpecToken>)
    requires
        wf_toks(ts),
    ensures
        wf_toks(fix_folds(ts)),
        fix_folds(ts).len() <= ts.len(),
        ts.len() >= 2 ==> fix_folds(ts).len() >= 2,
    decreases ts.len(),
{
    if ts.len() < 3 {
    } else {
        match find_fold(ts, 0) {
            Option::None => {},
            Option::Some(i) => {
                lemma_find_fold_some(ts, 0, i);
                lemma_fold_at_wf(ts, i);
                lemma_fix_folds_wf(fold_at(ts, i));
            },
        }
    }
}

/// What a successful search means: the position found carries the pattern
/// and no position from the search's start up to it does.
pub proof fn lemma_find_fold_some(ts: Seq<SpecToken>, i: int, k: int)
    requires
        0 <= i,
        find_fold(ts, i) == Option::Some(k),
    ensures
        i <= k <= ts.len() - 3,
        is_fold_at(ts, k),
        forall|j: int| i <= j < k ==> !is_fold_at(ts, j),
    decreases ts.len() - i,
{
    if i > ts.len() - 3 {
    } else if is_fold_at(ts, i) {
    } else {
        lemma_find_fold_some(ts, i + 1, k);
    }
}

/// What a failed search means: no position at or after the search's start
/// carries the pattern.
pub proof fn lemma_find_fold_none(ts: Seq<SpecToken>, i: int)
    requires
        0 <= i,
        find_fold(ts, i) == Option::None::<int>,
    ensures
        forall|j: int| i <= j ==> !is_fold_at(ts, j),
    decreases ts.len() - i,
{
    if i > ts.len() - 3 {
    } else if is_fold_at(ts, i) {
    } else {
        lemma_find_fold_none(ts, i + 1);
    }
}

/// A search may start anywhere inside a pattern-free prefix without changing
/// its result.
pub proof fn lemma_find_fold_from(ts: Seq<SpecToken>, i: int)
    requires
        0 <= i,
        forall|j: int| 0 <= j < i ==> !is_fold_at(ts, j),
    ensures
        find_fold(ts, 0) == find_fold(ts, i),
    decreases i,
{
    if i > 0 {
        lemma_find_fold_from(ts, i - 1);
        if i - 1 > ts.len() - 3 {
            assert(i > ts.len() - 3);
        }
    }
}

/// The fixed point is really reached: no interior pattern is left after the
/// fold loop.
pub proof fn lemma_fix_folds_fixed(ts: Seq<SpecToken>)
    ensures
        find_fold(fix_folds(ts), 0) == Option::None::<int>,
    decreases ts.len(),
{
    if ts.len() < 3 {
        assert(0 > fix_folds(ts).len() - 3);
    } else {
        match find_fold(ts, 0) {
            Option::None => {},
            Option::Some(i) => {
                lemma_find_fold_some(ts, 0, i);
                lemma_fix_folds_fixed(fold_at(ts, i));
            },
        }
    }
}

/// The sign normalizer returns a sequence of the same or smaller length:
/// every fold removes exactly one token.
pub proof fn lemma_normalized_len(ts: Seq<SpecToken>)
    requires
        wf_toks(ts),
    ensures
        normalized(ts).len() <= ts.len(),
{
    if ts.len() >= 3 {
        lemma_fix_folds_wf(ts);
    }
}

/// Normalizing a sequence whose operand texts carry no folded sign yet
/// yields a well-formed sequence again.
pub proof fn lemma_normalized_wf(ts: Seq<SpecToken>)
    requires
        wf_toks(ts),
        forall|i: int|
            0 <= i < ts.len() && (#[trigger] ts[i]).ty is Operand ==> plain_text(ts[i].text),
    ensures
        wf_toks(normalized(ts)),
{
    if ts.len() <= 1 {
    } else if ts.len() == 2 {
        if ts[0].text == seq!['-'] && ts[1].ty is Operand {
            let t = ts[1].text;
            let r = seq!['-'] + t;
            assert(r.skip(1) =~= t);
            assert(r.len() >= 2 && r[0] == '-');
            assert(operand_text(r));
        }
    } else {
        let v = fix_folds(ts);
        lemma_fix_folds_wf(ts);
        if v.len() >= 2 && v[0].text == seq!['-'] && v[1].ty is Operand {
            lemma_toggle_wf(v[1].text);
            let tog = SpecToken { text: toggle_sign(v[1].text), ty: v[1].ty };
            let u = v.update(1, tog).remove(0);
            assert forall|j: int| 0 <= j < u.len() implies {
                &&& (#[trigger] u[j]).text.len() >= 1
                &&& (u[j].ty is Operand ==> operand_text(u[j].text))
            } by {
                if j == 0 {
                    assert(u[j] == tog);
                } else {
                    assert(u[j] == v[j + 1]);
                }
            }
        }
    }
}

/// Law: sign normalization is idempotent on well-formed token sequences;
/// a second pass finds nothing left to fold and changes nothing.
pub proof fn lemma_normalized_idempotent(ts: Seq<SpecToken>)
    requires
        wf_toks(ts),
    ensures
        normalized(normalized(ts)) == normalized(ts),
{
    if ts.len() <= 1 {
    } else if ts.len() == 2 {
    } else {
        let v = fix_folds(ts);
        lemma_fix_folds_fixed(ts);
        lemma_find_fold_none(v, 0);
        lemma_fix_folds_wf(ts);
        if v[0].text == seq!['-'] && v[1].ty is Operand {
            lemma_toggle_wf(v[1].text);
            let tog = SpecToken { text: toggle_sign(v[1].text), ty: v[1].ty };
            let u = v.update(1, tog).remove(0);
            assert(normalized(ts) == u);
            assert(u.len() == v.len() - 1);
            assert(u[0] == tog);
            assert(forall|j: int| 1 <= j < u.len() ==> u[j] == v[j + 1]);
            assert forall|j: int| 0 <= j implies !is_fold_at(u, j) by {
                if j == 0 {
                    assert(u[0].ty is Operand);
                } else if j <= u.len() - 3 {
                    assert(!is_fold_at(v, j + 1));
                }
            }
            if u.len() >= 2 {
                assert(u[0].text != seq!['-']);
            }
            if u.len() >= 3 {
                lemma_find_fold_from(u, u.len() as int);
                assert(find_fold(u, u.len() as int) == Option::None::<int>);
                assert(fix_folds(u) == u);
                assert(fold_leading(u) == u);
            }
        } else {
            assert(normalized(ts) == v);
            if v.len() >= 3 {
                assert(fix_folds(v) == v);
                assert(fold_leading(v) == v);
            }
        }
    }
}

/// The characters of a text other than the minus sign, in order.
pub open spec fn drop_minus(s: Seq<char>) -> Seq<char>
    decreases s.len(),
{
    if s.len() == 0 {
        Seq::empty()
    } else if s[0] == '-' {
        drop_minus(s.skip(1))
    } else {
        seq![s[0]] + drop_minus(s.skip(1))
    }
}

proof fn lemma_drop_minus_concat(a: Seq<char>, b: Seq<char>)
    ensures
        drop_minus(a + b) == drop_minus(a) + drop_minus(b),
    decreases a.len(),
{
    if a.len() == 0 {
        assert(a + b =~= b);
        assert(drop_minus(a) + drop_minus(b) =~= drop_minus(b));
    } else {
        assert((a + b).skip(1) =~= a.skip(1) + b);
        assert((a + b)[0] == a[0]);
        lemma_drop_minus_concat(a.skip(1), b);
        if a[0] != '-' {
            assert(seq![a[0]] + (drop_minus(a.skip(1)) + drop_minus(b)) =~= (seq![a[0]]
                + drop_minus(a.skip(1))) + drop_minus(b));
        }
    }
}

proof fn lemma_drop_minus_toggle(t: Seq<char>)
    ensures
        drop_minus(toggle_sign(t)) == drop_minus(t),
{
    if t.len() >= 1 && t[0] == '-' {
    } else {
        let r = seq!['-'] + t;
        assert(r.skip(1) =~= t);
    }
}

proof fn lemma_drop_minus_of_minus()
    ensures
        drop_minus(seq!['-']) == Seq::<char>::empty(),
{
    assert(seq!['-'].skip(1) =~= Seq::<char>::empty());
    assert(drop_minus(Seq::<char>::empty()) =~= Seq::<char>::empty());
}

proof fn lemma_texts_of_split(ts: Seq<SpecToken>, i: int)
    requires
        0 <= i <= ts.len() - 3,
    ensures
        texts_of(ts) == texts_of(ts.subrange(0, i + 1)) + ts[i + 1].text + ts[i + 2].text
            + texts_of(ts.subrange(i + 3, ts.len() as int)),
{
    let a = ts.subrange(0, i + 1);
    let c = ts.subrange(i + 3, ts.len() as int);
    assert(ts =~= ((a + seq![ts[i + 1]]) + seq![ts[i + 2]]) + c);
    lemma_texts_of_concat((a + seq![ts[i + 1]]) + seq![ts[i + 2]], c);
    lemma_texts_of_concat(a + seq![ts[i + 1]], seq![ts[i + 2]]);
    lemma_texts_of_concat(a, seq![ts[i + 1]]);
    lemma_on_single(ts[i + 1]);
    lemma_on_single(ts[i + 2]);
}

proof fn lemma_fold_at_chars(ts: Seq<SpecToken>, i: int)
    requires
        is_fold_at(ts, i),
    ensures
        drop_minus(texts_of(fold_at(ts, i))) == drop_minus(texts_of(ts)),
{
    let t = ts[i + 2].text;
    let tog = SpecToken { text: toggle_sign(t), ty: ts[i + 2].ty };
    let a = ts.subrange(0, i + 1);
    let c = ts.subrange(i + 3, ts.len() as int);
    let folded = fold_at(ts, i);
    assert(folded =~= (a + seq![tog]) + c);
    lemma_texts_of_split(ts, i);
    lemma_texts_of_concat(a + seq![tog], c);
    lemma_texts_of_concat(a, seq![tog]);
    lemma_on_single(tog);
    lemma_drop_minus_concat(texts_of(a) + tog.text, texts_of(c));
    lemma_drop_minus_concat(texts_of(a), tog.text);
    lemma_drop_minus_toggle(t);
    lemma_drop_minus_concat((texts_of(a) + ts[i + 1].text) + t, texts_of(c));
    lemma_drop_minus_concat(texts_of(a) + ts[i + 1].text, t);
    lemma_drop_minus_concat(texts_of(a), ts[i + 1].text);
    lemma_drop_minus_of_minus();
    assert(texts_of(ts) == ((texts_of(a) + ts[i + 1].text) + t) + texts_of(c));
    assert(drop_minus(texts_of(folded)) == (drop_minus(texts_of(a)) + drop_minus(t)) + drop_minus(
        texts_of(c),
    ));
    assert(drop_minus(texts_of(ts)) == ((drop_minus(texts_of(a)) + Seq::<char>::empty())
        + drop_minus(t)) + drop_minus(texts_of(c)));
    assert(drop_minus(texts_of(a)) + Seq::<char>::empty() =~= drop_minus(texts_of(a)));
}

proof fn lemma_fix_folds_chars(ts: Seq<SpecToken>)
    ensures
        drop_minus(texts_of(fix_folds(ts))) == drop_minus(texts_of(ts)),
    decreases ts.len(),
{
    if ts.len() < 3 {
    } else {
        match find_fold(ts, 0) {
            Option::None => {},
            Option::Some(i) => {
                lemma_find_fold_some(ts, 0, i);
                lemma_fold_at_chars(ts, i);
                lemma_fix_folds_chars(fold_at(ts, i));
            },
        }
    }
}

proof fn lemma_fold_leading_chars(ts: Seq<SpecToken>)
    ensures
        drop_minus(texts_of(fold_leading(ts))) == drop_minus(texts_of(ts)),
{
    if ts.len() >= 2 && ts[0].text == seq!['-'] && ts[1].ty is Operand {
        let t = ts[1].text;
        let tog = SpecToken { text: toggle_sign(t), ty: ts[1].ty };
        let c = ts.subrange(2, ts.len() as int);
        assert(ts =~= (seq![ts[0]] + seq![ts[1]]) + c);
        assert(fold_leading(ts) =~= seq![tog] + c);
        lemma_texts_of_concat(seq![ts[0]] + seq![ts[1]], c);
        lemma_texts_of_concat(seq![ts[0]], seq![ts[1]]);
        lemma_texts_of_concat(seq![tog], c);
        lemma_on_single(ts[0]);
        lemma_on_single(ts[1]);
        lemma_on_single(tog);
        lemma_drop_minus_concat(tog.text, texts_of(c));
        lemma_drop_minus_toggle(t);
        lemma_drop_minus_concat(seq!['-'] + t, texts_of(c));
        lemma_drop_minus_concat(seq!['-'], t);
        lemma_drop_minus_of_minus();
        assert(drop_minus(seq!['-']) + drop_minus(t) =~= drop_minus(t));
    }
}

/// Law: the whole pipeline loses no character but minus signs, and loses
/// minus signs only by cancelling pairs of them: the non-minus characters of
/// the final token texts, in order, are exactly those of the input.
pub proof fn lemma_normalized_chars(ts: Seq<SpecToken>)
    ensures
        drop_minus(texts_of(normalized(ts))) == drop_minus(texts_of(ts)),
{
    if ts.len() <= 1 {
    } else if ts.len() == 2 {
        if ts[0].text == seq!['-'] && ts[1].ty is Operand {
            let t = ts[1].text;
            let folded = SpecToken { text: seq!['-'] + t, ty: TokenType::Operand };
            assert(ts =~= seq![ts[0]] + seq![ts[1]]);
            lemma_texts_of_concat(seq![ts[0]], seq![ts[1]]);
            lemma_on_single(ts[0]);
            lemma_on_single(ts[1]);
            lemma_on_single(folded);
            lemma_drop_minus_concat(seq!['-'], t);
            lemma_drop_minus_of_minus();
            assert((seq!['-'] + t).skip(1) =~= t);
            assert(drop_minus(Seq::<char>::empty()) + drop_minus(t) =~= drop_minus(t));
        }
    } else {
        lemma_fix_folds_chars(ts);
        lemma_fold_leading_chars(fix_folds(ts));
    }
}

/// Law: applied to the tokens of an input string, the pipeline keeps the
/// input's non-minus characters exactly, in order.
pub proof fn lemma_pipeline_chars(s: Seq<char>)
    ensures
        drop_minus(texts_of(normalized(grouped(s)))) == drop_minus(s),
{
    lemma_grouped_text(s);
    lemma_normalized_chars(grouped(s));
}

/// The token the classifier/grouper emits for a minus character.
pub open spec fn minus_token() -> SpecToken {
    SpecToken { text: seq!['-'], ty: TokenType::Operator }
}

/// A run of `k` consecutive minus-marker tokens.
pub open spec fn minus_run(k: nat) -> Seq<SpecToken>
    decreases k,
{
    if k == 0 {
        Seq::empty()
    } else {
        seq![minus_token()] + minus_run((k - 1) as nat)
    }
}

/// Toggling a sign `k` times over.
pub open spec fn toggle_iter(k: nat, t: Seq<char>) -> Seq<char>
    decreases k,
{
    if k == 0 {
        t
    } else {
        toggle_iter((k - 1) as nat, toggle_sign(t))
    }
}

proof fn lemma_minus_run_facts(k: nat)
    ensures
        minus_run(k).len() == k,
        forall|i: int| 0 <= i < k ==> minus_run(k)[i] == minus_token(),
    decreases k,
{
    if k > 0 {
        lemma_minus_run_facts((k - 1) as nat);
    }
}

proof fn lemma_toggle_iter_parity(k: nat, t: Seq<char>)
    requires
        plain_text(t),
    ensures
        toggle_iter(k, t) == if k % 2 == 0 {
            t
        } else {
            seq!['-'] + t
        },
        toggle_iter(k, seq!['-'] + t) == if k % 2 == 0 {
            seq!['-'] + t
        } else {
            t
        },
    decreases k,
{
    let m = seq!['-'] + t;
    assert(m.skip(1) =~= t);
    if k > 0 {
        lemma_toggle_iter_parity((k - 1) as nat, t);
        assert(t[0] != '-');
        assert(toggle_sign(t) == m);
        assert(toggle_sign(m) =~= t);
    }
}

proof fn lemma_fix_folds_minus_run(t0: SpecToken, k: nat, d: SpecToken)
    requires
        t0.ty is Operator,
        d.ty is Operand,
        operand_text(d.text),
        k >= 1,
    ensures
        fix_folds(seq![t0] + minus_run(k) + seq![d]) == seq![
            t0,
            SpecToken { text: toggle_iter(k, d.text), ty: d.ty },
        ],
    decreases k,
{
    let ts = seq![t0] + minus_run(k) + seq![d];
    lemma_minus_run_facts(k);
    assert(ts.len() == k + 2);
    assert(ts[0] == t0);
    assert(forall|i: int| 1 <= i <= k ==> ts[i] == minus_token());
    assert(ts[k as int + 1] == d);
    assert(is_fold_at(ts, k as int - 1));
    assert forall|j: int| 0 <= j < k - 1 implies !is_fold_at(ts, j) by {
        assert(ts[j + 2] == minus_token());
    }
    lemma_find_fold_from(ts, k as int - 1);
    assert(find_fold(ts, 0) == Option::Some(k as int - 1));
    let tog = SpecToken { text: toggle_sign(d.text), ty: d.ty };
    let folded = fold_at(ts, k as int - 1);
    lemma_minus_run_facts((k - 1) as nat);
    assert(folded =~= seq![t0] + minus_run((k - 1) as nat) + seq![tog]) by {
        assert(folded.len() == k + 1);
        assert forall|j: int| 0 <= j < k + 1 implies folded[j] == (seq![t0] + minus_run(
            (k - 1) as nat,
        ) + seq![tog])[j] by {
            let u = ts.update(k as int + 1, tog);
            if j < k {
                assert(folded[j] == u[j]);
            } else {
                assert(folded[j] == u[j + 1]);
            }
        }
    }
    lemma_toggle_wf(d.text);
    if k == 1 {
        assert(fix_folds(folded) == folded);
        assert(folded =~= seq![t0, tog]);
        assert(toggle_iter(1, d.text) == toggle_sign(d.text));
    } else {
        lemma_fix_folds_minus_run(t0, (k - 1) as nat, tog);
        assert(toggle_iter(k, d.text) == toggle_iter((k - 1) as nat, toggle_sign(d.text)));
    }
}

/// Law: a run of `k` consecutive minus markers standing between a genuine
/// operator and an operand folds away entirely, and the operand comes out
/// negative exactly when `k` is odd.
pub proof fn lemma_minus_run_parity(t0: SpecToken, k: nat, d: SpecToken)
    requires
        t0.ty is Operator,
        t0.text != seq!['-'],
        d.ty is Operand,
        plain_text(d.text),
    ensures
        normalized(seq![t0] + minus_run(k) + seq![d]) == seq![
            t0,
            SpecToken {
                text: if k % 2 == 1 {
                    seq!['-'] + d.text
                } else {
                    d.text
                },
                ty: TokenType::Operand,
            },
        ],
{
    let ts = seq![t0] + minus_run(k) + seq![d];
    lemma_minus_run_facts(k);
    if k == 0 {
        assert(ts =~= seq![t0, d]);
        assert(normalized(ts) == ts);
        assert(ts =~= seq![t0, SpecToken { text: d.text, ty: TokenType::Operand }]);
    } else {
        lemma_fix_folds_minus_run(t0, k, d);
        let v = seq![t0, SpecToken { text: toggle_iter(k, d.text), ty: d.ty }];
        assert(ts.len() >= 3);
        assert(normalized(ts) == fold_leading(v));
        assert(v[0] == t0);
        assert(fold_leading(v) == v);
        lemma_toggle_iter_parity(k, d.text);
    }
}

} // verus!
