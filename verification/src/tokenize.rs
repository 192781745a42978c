//! Splitting text into tokens on the space delimiter, and joining tokens
//! back with spaces. Repeated delimiters yield empty tokens; no case
//! folding or stop-word removal is applied.

use vstd::prelude::*;
use vstd::string::*;

verus! {

/// The sequence of tokens of `s`, split on the space character.
///
/// Splitting never yields an empty sequence: the empty text has the single
/// empty token, and each delimiter ends one token and starts the next.
pub open spec fn tokens_of(s: Seq<char>) -> Seq<Seq<char>>
    decreases s.len(),
{
    if s.len() == 0 {
        seq![Seq::<char>::empty()]
    } else if s[0] == ' ' {
        seq![Seq::<char>::empty()] + tokens_of(s.drop_first())
    } else {
        let rest = tokens_of(s.drop_first());
        seq![seq![s[0]] + rest[0]] + rest.drop_first()
    }
}

/// The tokens joined back into one text, with a single space between
/// consecutive tokens.
pub open spec fn space_join(ts: Seq<Seq<char>>) -> Seq<char>
    decreases ts.len(),
{
    if ts.len() == 0 {
        Seq::<char>::empty()
    } else if ts.len() == 1 {
        ts[0]
    } else {
        ts[0] + seq![' '] + space_join(ts.drop_first())
    }
}

/// Holds of a token that contains no delimiter, so that joining and
/// re-splitting leaves it intact.
pub open spec fn space_free(t: Seq<char>) -> bool {
    forall|i: int| 0 <= i < t.len() ==> t[i] != ' '
}

pub proof fn lemma_tokens_of_len(s: Seq<char>)
    ensures
        tokens_of(s).len() >= 1,
    decreases s.len(),
{
    if s.len() == 0 {
    } else if s[0] == ' ' {
        lemma_tokens_of_len(s.drop_first());
    } else {
        lemma_tokens_of_len(s.drop_first());
    }
}

/// A text without delimiters is its own single token.
pub proof fn lemma_tokens_of_space_free(t: Seq<char>)
    requires
        space_free(t),
    ensures
        tokens_of(t) =~~= seq![t],
    decreases t.len(),
{
    if t.len() == 0 {
    } else {
        lemma_tokens_of_space_free(t.drop_first());
        let rest = tokens_of(t.drop_first());
        assert(rest[0] == t.drop_first());
        assert(seq![t[0]] + rest[0] =~= t);
    }
}

/// Splitting distributes over a joined head token: the head comes back
/// exactly, and the remainder splits on its own.
pub proof fn lemma_tokens_of_head_join(t: Seq<char>, u: Seq<char>)
    requires
        space_free(t),
    ensures
        tokens_of(t + seq![' '] + u) =~~= seq![t] + tokens_of(u),
    decreases t.len(),
{
    let s = t + seq![' '] + u;
    if t.len() == 0 {
        assert(s =~= seq![' '] + u);
        assert(s[0] == ' ');
        assert(s.drop_first() =~= u);
    } else {
        lemma_tokens_of_head_join(t.drop_first(), u);
        assert(s[0] == t[0]);
        assert(s[0] != ' ');
        assert(s.drop_first() =~= t.drop_first() + seq![' '] + u);
        let rest = tokens_of(s.drop_first());
        lemma_tokens_of_len(u);
        assert(rest =~= seq![t.drop_first()] + tokens_of(u));
        assert(seq![s[0]] + rest[0] =~= t);
        assert(rest.drop_first() =~= tokens_of(u));
    }
}

/// Joining a non-empty sequence of delimiter-free tokens and splitting the
/// result gives the tokens back unchanged.
pub proof fn lemma_split_of_join(ts: Seq<Seq<char>>)
    requires
        ts.len() >= 1,
        forall|i: int| 0 <= i < ts.len() ==> space_free(#[trigger] ts[i]),
    ensures
        tokens_of(space_join(ts)) =~~= ts,
    decreases ts.len(),
{
    if ts.len() == 1 {
        lemma_tokens_of_space_free(ts[0]);
    } else {
        lemma_split_of_join(ts.drop_first());
        lemma_tokens_of_head_join(ts[0], space_join(ts.drop_first()));
    }
}

/// Every token of a split is free of the delimiter.
pub proof fn lemma_tokens_of_space_free_tokens(s: Seq<char>)
    ensures
        forall|i: int| 0 <= i < tokens_of(s).len() ==> space_free(#[trigger] tokens_of(s)[i]),
    decreases s.len(),
{
    if s.len() == 0 {
        assert(space_free(tokens_of(s)[0]));
    } else if s[0] == ' ' {
        lemma_tokens_of_space_free_tokens(s.drop_first());
        let rest = tokens_of(s.drop_first());
        assert forall|i: int| 0 <= i < tokens_of(s).len() implies space_free(
            #[trigger] tokens_of(s)[i],
        ) by {
            if i == 0 {
                assert(tokens_of(s)[0] == Seq::<char>::empty());
            } else {
                assert(tokens_of(s)[i] == rest[i - 1]);
            }
        }
    } else {
        lemma_tokens_of_space_free_tokens(s.drop_first());
        let rest = tokens_of(s.drop_first());
        lemma_tokens_of_len(s.drop_first());
        assert forall|i: int| 0 <= i < tokens_of(s).len() implies space_free(
            #[trigger] tokens_of(s)[i],
        ) by {
            if i == 0 {
                assert(space_free(rest[0]));
                let head = seq![s[0]] + rest[0];
                assert(tokens_of(s)[0] == head);
                assert forall|j: int| 0 <= j < head.len() implies head[j] != ' ' by {
                    if j == 0 {
                        assert(head[0] == s[0]);
                    } else {
                        assert(head[j] == rest[0][j - 1]);
                    }
                }
            } else {
                assert(tokens_of(s)[i] == rest.drop_first()[i - 1]);
                assert(rest.drop_first()[i - 1] == rest[i]);
            }
        }
    }
}

/// How a split grows when one character is appended: a delimiter closes the
/// current token and opens an empty one; any other character extends the
/// current token.
proof fn lemma_tokens_of_snoc(p: Seq<char>, c: char)
    ensures
        c == ' ' ==> tokens_of(p.push(c)) =~~= tokens_of(p).push(Seq::<char>::empty()),
        c != ' ' ==> tokens_of(p.push(c)) =~~= tokens_of(p).update(
            tokens_of(p).len() - 1,
            tokens_of(p).last().push(c),
        ),
    decreases p.len(),
{
    lemma_tokens_of_len(p);
    let s = p.push(c);
    if p.len() == 0 {
        assert(p =~= Seq::<char>::empty());
        assert(s[0] == c);
        assert(s.drop_first() =~= p);
        if c == ' ' {
            assert(tokens_of(s) =~~= tokens_of(p).push(Seq::<char>::empty()));
        } else {
            let rest = tokens_of(s.drop_first());
            assert(tokens_of(s) == seq![seq![s[0]] + rest[0]] + rest.drop_first());
            assert(seq![s[0]] + rest[0] =~= seq![c]);
            assert(tokens_of(p).last().push(c) =~= seq![c]);
            assert(tokens_of(s) =~~= tokens_of(p).update(
                tokens_of(p).len() - 1,
                tokens_of(p).last().push(c),
            ));
        }
    } else {
        let pd = p.drop_first();
        lemma_tokens_of_snoc(pd, c);
        lemma_tokens_of_len(pd);
        assert(s[0] == p[0]);
        assert(s.drop_first() =~= pd.push(c));
        if p[0] == ' ' {
            assert(tokens_of(p) == seq![Seq::<char>::empty()] + tokens_of(pd));
            assert(tokens_of(s) == seq![Seq::<char>::empty()] + tokens_of(pd.push(c)));
            assert(tokens_of(p).last() == tokens_of(pd).last());
            if c == ' ' {
                assert(tokens_of(s) =~~= tokens_of(p).push(Seq::<char>::empty()));
            } else {
                assert(tokens_of(s) =~~= tokens_of(p).update(
                    tokens_of(p).len() - 1,
                    tokens_of(p).last().push(c),
                ));
            }
        } else {
            let r0 = tokens_of(pd);
            assert(tokens_of(p) == seq![seq![p[0]] + r0[0]] + r0.drop_first());
            let rest = tokens_of(pd.push(c));
            assert(tokens_of(s) == seq![seq![s[0]] + rest[0]] + rest.drop_first());
            if c == ' ' {
                assert(rest == r0.push(Seq::<char>::empty()));
                assert(rest[0] == r0[0]);
                assert(rest.drop_first() =~= r0.drop_first().push(Seq::<char>::empty()));
                assert(tokens_of(s) =~~= tokens_of(p).push(Seq::<char>::empty()));
            } else {
                assert(rest == r0.update(r0.len() - 1, r0.last().push(c)));
                if r0.len() == 1 {
                    assert(rest[0] == r0[0].push(c));
                    assert(seq![s[0]] + rest[0] =~= (seq![p[0]] + r0[0]).push(c));
                    assert(tokens_of(p).last() == seq![p[0]] + r0[0]);
                    assert(tokens_of(s) =~~= tokens_of(p).update(
                        tokens_of(p).len() - 1,
                        tokens_of(p).last().push(c),
                    ));
                } else {
                    assert(rest[0] == r0[0]);
                    assert(rest.drop_first() =~= r0.drop_first().update(
                        r0.len() - 2,
                        r0.last().push(c),
                    ));
                    assert(tokens_of(p).last() == r0.last());
                    assert(tokens_of(s) =~~= tokens_of(p).update(
                        tokens_of(p).len() - 1,
                        tokens_of(p).last().push(c),
                    ));
                }
            }
        }
    }
}

/// How a join grows when one token is appended: the first token stands
/// alone, each later one follows a single delimiter.
pub proof fn lemma_space_join_snoc(ts: Seq<Seq<char>>, t: Seq<char>)
    ensures
        ts.len() == 0 ==> space_join(ts.push(t)) == t,
        ts.len() >= 1 ==> space_join(ts.push(t)) =~= space_join(ts) + seq![' '] + t,
    decreases ts.len(),
{
    if ts.len() == 0 {
        assert(ts.push(t)[0] == t);
    } else if ts.len() == 1 {
        assert(ts.push(t)[0] == ts[0]);
        assert(ts.push(t).drop_first() =~= seq![t]);
        assert(space_join(seq![t]) == t);
    } else {
        lemma_space_join_snoc(ts.drop_first(), t);
        assert(ts.push(t)[0] == ts[0]);
        assert(ts.push(t).drop_first() =~= ts.drop_first().push(t));
    }
}

/// Joins tokens into one text with a single space between consecutive
/// tokens.
pub fn join_spaces(tokens: &Vec<String>) -> (r: String)
    ensures
        r@ == space_join(tokens.deep_view()),
{
    let ghost tv = tokens.deep_view();
    let mut out = String::new();
    let mut i: usize = 0;
    proof {
        assert(tv.take(0) =~= Seq::<Seq<char>>::empty());
    }
    while i < tokens.len()
        invariant
            0 <= i <= tokens.len(),
            tv == tokens.deep_view(),
            out@ == space_join(tv.take(i as int)),
        decreases tokens.len() - i,
    {
        proof {
            assert(tv.take(i as int + 1) =~= tv.take(i as int).push(tv[i as int]));
            lemma_space_join_snoc(tv.take(i as int), tv[i as int]);
            assert(tv[i as int] == tokens@[i as int]@);
            reveal_strlit(" ");
            assert(" "@ =~= seq![' ']);
        }
        if i > 0 {
            out.append(" ");
        }
        out.append(tokens[i].as_str());
        i = i + 1;
    }
    proof {
        assert(tv.take(tokens.len() as int) =~= tv);
    }
    out
}

/// Splits raw text into an ordered sequence of tokens on the space
/// delimiter. Order is preserved and repeated delimiters yield empty
/// tokens.
pub fn tokenizer(s: &str) -> (r: Vec<String>)
    ensures
        r.deep_view() == tokens_of(s@),
{
    let n = s.unicode_len();
    let mut tokens: Vec<String> = Vec::new();
    let mut start: usize = 0;
    let mut i: usize = 0;
    proof {
        assert(s@.subrange(0, 0) =~= Seq::<char>::empty());
    }
    while i < n
        invariant
            n == s@.len(),
            0 <= start <= i <= n,
            tokens.deep_view() =~= tokens_of(s@.subrange(0, i as int)).drop_last(),
            s@.subrange(start as int, i as int) =~= tokens_of(s@.subrange(0, i as int)).last(),
        decreases n - i,
    {
        let ghost pre = s@.subrange(0, i as int);
        proof {
            lemma_tokens_of_len(pre);
            lemma_tokens_of_snoc(pre, s@[i as int]);
            assert(s@.subrange(0, i as int + 1) =~= pre.push(s@[i as int]));
        }
        let c = s.get_char(i);
        if c == ' ' {
            let tok = s.substring_char(start, i);
            let owned = String::from_str(tok);
            tokens.push(owned);
            proof {
                let post = tokens_of(s@.subrange(0, i as int + 1));
                assert(post =~= tokens_of(pre).push(Seq::<char>::empty()));
                assert(post.drop_last() =~= tokens_of(pre));
                assert(tokens.deep_view() =~= tokens_of(pre).drop_last().push(tok@));
                assert(tok@ == tokens_of(pre).last());
                assert(tokens.deep_view() =~= tokens_of(pre));
                assert(s@.subrange(i as int + 1, i as int + 1) =~= Seq::<char>::empty());
            }
            start = i + 1;
        } else {
            proof {
                let post = tokens_of(s@.subrange(0, i as int + 1));
                assert(post.drop_last() =~= tokens_of(pre).drop_last());
                assert(post.last() == tokens_of(pre).last().push(s@[i as int]));
                assert(s@.subrange(start as int, i as int + 1) =~= s@.subrange(
                    start as int,
                    i as int,
                ).push(s@[i as int]));
            }
        }
        i = i + 1;
    }
    let tok = s.substring_char(start, n);
    let owned = String::from_str(tok);
    tokens.push(owned);
    proof {
        assert(s@.subrange(0, n as int) =~= s@);
        lemma_tokens_of_len(s@);
        assert(tokens.deep_view() =~= tokens_of(s@).drop_last().push(tokens_of(s@).last()));
        assert(tokens.deep_view() =~= tokens_of(s@));
    }
    tokens
}

} // verus!
