//! The product names of a user agent string.

use vstd::prelude::*;
use crate::text::{
    chars_of, find_char, find_from, lemma_find_from_bounds, lemma_pieces_from_no_sep, pieces_from,
    push_char,
};

verus! {

/// The characters that a product name drops.
pub open spec fn is_agent_punct(c: char) -> bool {
    c == '(' || c == ')' || c == ';'
}

/// The characters that a product name keeps.
pub open spec fn kept() -> spec_fn(char) -> bool {
    |c: char| !is_agent_punct(c)
}

/// A piece of a user agent without its brackets and semicolons, cut at its
/// first `/` (a product name without its version).
pub open spec fn agent_token(piece: Seq<char>) -> Seq<char> {
    let stripped = piece.filter(kept());
    stripped.take(find_from(stripped, '/', 0))
}

/// The product names of a user agent: each space-separated piece as `agent_token` makes it.
pub open spec fn agent_tokens(ua: Seq<char>) -> Seq<Seq<char>> {
    pieces_from(ua, ' ', 0).map_values(|p: Seq<char>| agent_token(p))
}

fn token_of(cs: &Vec<char>, from: usize, to: usize) -> (r: String)
    requires
        from <= to <= cs@.len(),
    ensures
        r@ == agent_token(cs@.subrange(from as int, to as int)),
{
    let ghost piece = cs@.subrange(from as int, to as int);
    let mut stripped: Vec<char> = Vec::new();
    let mut k = from;
    assert(piece.take(0) =~= Seq::<char>::empty());
    assert(piece.take(0).filter(kept()) =~= Seq::<char>::empty()) by {
        reveal(Seq::filter);
    }
    while k < to
        invariant
            from <= k <= to <= cs@.len(),
            piece == cs@.subrange(from as int, to as int),
            stripped@ == piece.take(k - from).filter(kept()),
        decreases to - k,
    {
        let c = cs[k];
        proof {
            reveal(Seq::filter);
            assert(piece.take(k - from + 1).drop_last() =~= piece.take(k - from));
            assert(piece.take(k - from + 1).last() == c);
        }
        if !(c == '(' || c == ')' || c == ';') {
            stripped.push(c);
        }
        k = k + 1;
    }
    assert(piece.take(to - from) =~= piece);
    let cut = find_char(&stripped, '/', 0);
    let mut out = String::new();
    let mut j: usize = 0;
    assert(out@ =~= stripped@.take(0));
    while j < cut
        invariant
            j <= cut <= stripped@.len(),
            out@ == stripped@.take(j as int),
        decreases cut - j,
    {
        push_char(&mut out, stripped[j]);
        j = j + 1;
        assert(out@ =~= stripped@.take(j as int));
    }
    out
}

/// The product names of a user agent: for each space-separated piece, the
/// piece without `(`, `)` and `;`, up to its first `/`.
pub fn parse(user_agent: &str) -> (r: Vec<String>)
    ensures
        r@.map_values(|s: String| s@) == agent_tokens(user_agent@),
{
    let cs = chars_of(user_agent);
    let n = cs.len();
    let mut out: Vec<String> = Vec::new();
    let mut from: usize = 0;
    loop
        invariant
            n == cs@.len(),
            cs@ == user_agent@,
            from <= n,
            out@.map_values(|s: String| s@) + pieces_from(cs@, ' ', from as int).map_values(
                |p: Seq<char>| agent_token(p),
            ) == agent_tokens(user_agent@),
        decreases n - from,
    {
        let e = find_char(&cs, ' ', from);
        let tok = token_of(&cs, from, e);
        let ghost before = out@;
        out.push(tok);
        if e >= n {
            proof {
                assert(pieces_from(cs@, ' ', from as int) =~= seq![cs@.subrange(from as int, n as int)]);
                assert(out@.map_values(|s: String| s@) =~= before.map_values(|s: String| s@).push(
                    tok@,
                ));
                assert(out@.map_values(|s: String| s@) =~= agent_tokens(user_agent@));
            }
            return out;
        }
        proof {
            let rest = pieces_from(cs@, ' ', e + 1);
            assert(pieces_from(cs@, ' ', from as int) =~= seq![cs@.subrange(from as int, e as int)]
                + rest);
            assert(out@.map_values(|s: String| s@) =~= before.map_values(|s: String| s@).push(
                tok@,
            ));
            assert(pieces_from(cs@, ' ', from as int).map_values(|p: Seq<char>| agent_token(p))
                =~= seq![tok@] + rest.map_values(|p: Seq<char>| agent_token(p)));
        }
        from = e + 1;
    }
}

/// A product name holds no space, no `/`, and no `(`, `)` or `;`.
pub proof fn lemma_agent_tokens_clean(ua: Seq<char>)
    ensures
        forall|i: int, j: int|
            0 <= i < agent_tokens(ua).len() && 0 <= j < agent_tokens(ua)[i].len() ==> {
                let c = #[trigger] agent_tokens(ua)[i][j];
                c != ' ' && c != '/' && !is_agent_punct(c)
            },
{
    let ps = pieces_from(ua, ' ', 0);
    lemma_pieces_from_no_sep(ua, ' ', 0);
    assert forall|i: int, j: int|
        0 <= i < agent_tokens(ua).len() && 0 <= j < agent_tokens(ua)[i].len() implies {
        let c = #[trigger] agent_tokens(ua)[i][j];
        c != ' ' && c != '/' && !is_agent_punct(c)
    } by {
        let p = ps[i];
        let stripped = p.filter(kept());
        lemma_find_from_bounds(stripped, '/', 0);
        let k = find_from(stripped, '/', 0);
        assert(agent_tokens(ua)[i] == stripped.take(k));
        let c = stripped[j];
        broadcast use vstd::seq_lib::group_filter_ensures;
        assert(kept()(c));
        assert(stripped.contains(c));
        p.lemma_filter_contains_rev(kept(), c);
        let w = choose|w: int| 0 <= w < p.len() && p[w] == c;
        assert(p[w] != ' ');
    }
}

/// The characters other than `(`, `)` and `;`.
pub open spec fn not_bracket_or_semicolon() -> spec_fn(char) -> bool {
    |c: char| c != '(' && c != ')' && c != ';'
}

proof fn lemma_filter_keeps_all(p: Seq<char>)
    requires
        forall|k: int| 0 <= k < p.len() ==> not_bracket_or_semicolon()(#[trigger] p[k]),
    ensures
        p.filter(not_bracket_or_semicolon()) == p,
    decreases p.len(),
{
    reveal_with_fuel(Seq::filter, 1);
    if p.len() > 0 {
        assert forall|k: int| 0 <= k < p.drop_last().len() implies not_bracket_or_semicolon()(
            #[trigger] p.drop_last()[k],
        ) by {
            assert(p.drop_last()[k] == p[k]);
        }
        lemma_filter_keeps_all(p.drop_last());
        assert(not_bracket_or_semicolon()(p[p.len() - 1]));
        assert(p.drop_last().push(p.last()) =~= p);
    }
}

/// The product name of a piece is the piece with its `(`, `)` and `;` taken
/// out, and every other character kept, up to its first `/`; a piece with
/// none of these four characters is its own product name.
pub proof fn lemma_agent_token(piece: Seq<char>)
    ensures
        agent_token(piece) == piece.filter(not_bracket_or_semicolon()).take(
            find_from(piece.filter(not_bracket_or_semicolon()), '/', 0),
        ),
        (forall|k: int|
            0 <= k < piece.len() ==> #[trigger] piece[k] != '(' && piece[k] != ')' && piece[k]
                != ';' && piece[k] != '/') ==> agent_token(piece) == piece,
{
    assert(kept() =~= not_bracket_or_semicolon());
    if forall|k: int|
        0 <= k < piece.len() ==> #[trigger] piece[k] != '(' && piece[k] != ')' && piece[k] != ';'
            && piece[k] != '/' {
        lemma_filter_keeps_all(piece);
        lemma_find_from_bounds(piece, '/', 0);
        assert(find_from(piece, '/', 0) == piece.len());
        assert(piece.take(piece.len() as int) =~= piece);
    }
}

/// A user agent of one piece, without a space, `(`, `)`, `;` or `/`, is its
/// own one product name.
pub proof fn lemma_agent_tokens_single(ua: Seq<char>)
    requires
        forall|k: int|
            0 <= k < ua.len() ==> #[trigger] ua[k] != ' ' && ua[k] != '(' && ua[k] != ')' && ua[k]
                != ';' && ua[k] != '/',
    ensures
        agent_tokens(ua) == seq![ua],
{
    lemma_find_from_bounds(ua, ' ', 0);
    assert(find_from(ua, ' ', 0) == ua.len());
    assert(pieces_from(ua, ' ', 0) == seq![ua.subrange(0, ua.len() as int)]);
    assert(ua.subrange(0, ua.len() as int) =~= ua);
    lemma_agent_token(ua);
    assert(agent_tokens(ua) =~= seq![ua]);
}

} // verus!
