//! The tokens that are printed of conditions.
use crate::error::ParserErrorView;
use crate::supports::{condition_css, joined_css, ConditionView};
use crate::supports_parser::{
    ascii_lower, behind_block, block_end, condition, declaration, first_error, group, in_parens,
    is_keyword, joined, lemma_block_end, lemma_progress, lemma_skip_space, operator, skip_space,
};
use crate::token::{token_text, Bracket, KindView, TokenView};
use vstd::prelude::*;

verus! {

/// An opening parenthesis, as it is printed.
pub open spec fn open_token() -> TokenView {
    TokenView { kind: KindView::Open(Bracket::Paren), text: "("@ }
}

/// A closing parenthesis, as it is printed.
pub open spec fn close_token() -> TokenView {
    TokenView { kind: KindView::Close(Bracket::Paren), text: ")"@ }
}

/// A space, as it is printed.
pub open spec fn space_token() -> TokenView {
    TokenView { kind: KindView::Space, text: " "@ }
}

/// A keyword, as it is printed.
pub open spec fn word(name: Seq<char>) -> TokenView {
    TokenView { kind: KindView::Ident(name), text: name }
}

/// `and` or `or`, as it is printed.
pub open spec fn operator_token(is_and: bool) -> TokenView {
    if is_and {
        word("and"@)
    } else {
        word("or"@)
    }
}

/// `selector(`, as it is printed.
pub open spec fn selector_token() -> TokenView {
    TokenView { kind: KindView::Function("selector"@), text: "selector("@ }
}

/// Tokens in parentheses.
pub open spec fn enclosed(open: TokenView, inner: Seq<TokenView>) -> Seq<TokenView> {
    seq![open] + inner + seq![close_token()]
}

/// The brackets that are open behind the tokens from `i` up to `end`, where `open` are those
/// before them, unless the tokens close the first of these. A bracket that does not close the last
/// one is passed over.
pub open spec fn stack_after(tokens: Seq<TokenView>, i: int, end: int, open: Seq<Bracket>) -> Option<
    Seq<Bracket>,
>
    decreases end - i,
{
    if i >= end {
        Some(open)
    } else if open.len() > 0 && tokens[i].kind == KindView::Close(open.last()) {
        if open.len() == 1 {
            None
        } else {
            stack_after(tokens, i + 1, end, open.drop_last())
        }
    } else {
        match tokens[i].kind.opens() {
            Some(bracket) => stack_after(tokens, i + 1, end, open.push(bracket)),
            None => stack_after(tokens, i + 1, end, open),
        }
    }
}

/// Whether each bracket that the tokens from `i` up to `end` open is closed, and no parenthesis
/// beyond these.
pub open spec fn balanced(tokens: Seq<TokenView>, i: int, end: int) -> bool {
    stack_after(tokens, i, end, seq![Bracket::Paren]) == Some(seq![Bracket::Paren])
}

/// The tokens of the condition that the tokens from `i` up to `end` are, as it is printed: with one
/// space around operators and behind `not`, and otherwise without whitespace and comments, except
/// inside of declarations, selectors and what is unknown.
pub open spec fn rewritten(tokens: Seq<TokenView>, i: int, end: int) -> Seq<TokenView>
    decreases end - i, 3int,
{
    let p = skip_space(tokens, i, end);
    proof {
        lemma_skip_space(tokens, i, end);
    }
    if i <= p < end && (tokens[p].kind matches KindView::Ident(name) && is_keyword(name, "not"@)) {
        seq![word("not"@), space_token()] + rewritten_in_parens(tokens, p + 1, end)
    } else {
        let first = rewritten_in_parens(tokens, i, end);
        match in_parens(tokens, i, end) {
            Ok((_, next)) => match operator(tokens, next, end) {
                Some((is_and, _)) if i <= next <= end => first + rewritten_joined(
                    tokens,
                    next,
                    end,
                    is_and,
                ),
                _ => first,
            },
            Err(_) => first,
        }
    }
}

/// The tokens of the conditions that follow behind the given operator.
pub open spec fn rewritten_joined(
    tokens: Seq<TokenView>,
    i: int,
    end: int,
    is_and: bool,
) -> Seq<TokenView>
    decreases end - i, 2int,
{
    proof {
        lemma_skip_space(tokens, i, end);
    }
    match operator(tokens, i, end) {
        Some((found, behind)) if found == is_and => match in_parens(tokens, behind, end) {
            Ok((_, next)) if i < next <= end => seq![
                space_token(),
                operator_token(is_and),
                space_token(),
            ] + rewritten_in_parens(tokens, behind, end) + rewritten_joined(
                tokens,
                next,
                end,
                is_and,
            ),
            _ => Seq::empty(),
        },
        _ => Seq::empty(),
    }
}

/// The tokens of a condition in parentheses.
pub open spec fn rewritten_in_parens(tokens: Seq<TokenView>, i: int, end: int) -> Seq<TokenView>
    decreases end - i, 1int,
{
    let p = skip_space(tokens, i, end);
    let close = block_end(tokens, p + 1, end, seq![Bracket::Paren]);
    let behind = behind_block(close, end);
    proof {
        lemma_skip_space(tokens, i, end);
        lemma_block_end(tokens, p + 1, end, seq![Bracket::Paren]);
    }
    if p >= end {
        Seq::empty()
    } else {
        match tokens[p].kind {
            KindView::Function(name) if is_keyword(name, "selector"@) => enclosed(
                selector_token(),
                tokens.subrange(p + 1, close),
            ),
            KindView::Open(Bracket::Paren) => match condition(tokens, p + 1, close) {
                Ok((_, next)) => if skip_space(tokens, next, close) >= close {
                    enclosed(open_token(), rewritten(tokens, p + 1, close))
                } else {
                    tokens.subrange(p, behind)
                },
                Err(_) => if declaration(tokens, p + 1, close) is Ok {
                    enclosed(open_token(), tokens.subrange(p + 1, close))
                } else {
                    tokens.subrange(p, behind)
                },
            },
            _ => tokens.subrange(p, behind),
        }
    }
}

/// Whether the tokens `a` from `i` up to `end` are those of `b`, there by `by` places further on.
pub open spec fn moved(
    a: Seq<TokenView>,
    b: Seq<TokenView>,
    i: int,
    end: int,
    by: int,
) -> bool {
    forall|k: int| i <= k < end ==> #[trigger] a[k] == b[k + by]
}

/// Whitespace is passed over in the same way wherever it stands.
pub proof fn lemma_moved_space(a: Seq<TokenView>, b: Seq<TokenView>, i: int, end: int, by: int)
    requires
        moved(a, b, i, end, by),
    ensures
        skip_space(b, i + by, end + by) == skip_space(a, i, end) + by,
    decreases end - i,
{
    if i < end && a[i].kind is Space {
        lemma_moved_space(a, b, i + 1, end, by);
    }
}

/// Brackets are closed in the same way wherever they stand.
pub proof fn lemma_moved_block(
    a: Seq<TokenView>,
    b: Seq<TokenView>,
    i: int,
    end: int,
    by: int,
    open: Seq<Bracket>,
)
    requires
        moved(a, b, i, end, by),
    ensures
        block_end(b, i + by, end + by, open) == block_end(a, i, end, open) + by,
        stack_after(b, i + by, end + by, open) == stack_after(a, i, end, open),
    decreases end - i,
{
    if i < end {
        assert(a[i] == b[i + by]);
        lemma_moved_block(a, b, i + 1, end, by, open.drop_last());
        lemma_moved_block(a, b, i + 1, end, by, open);
        if let Some(bracket) = a[i].kind.opens() {
            lemma_moved_block(a, b, i + 1, end, by, open.push(bracket));
        }
    }
}

/// Tokens that no CSS may hold are found in the same way wherever they stand.
pub proof fn lemma_moved_error(
    a: Seq<TokenView>,
    b: Seq<TokenView>,
    i: int,
    end: int,
    by: int,
    open: Seq<Bracket>,
)
    requires
        moved(a, b, i, end, by),
    ensures
        match first_error(a, i, end, open) {
            Some(e) => i <= e < end && first_error(b, i + by, end + by, open) == Some(e + by),
            None => first_error(b, i + by, end + by, open) is None,
        },
    decreases end - i,
{
    if i < end {
        assert(a[i] == b[i + by]);
        lemma_moved_error(a, b, i + 1, end, by, open.drop_last());
        lemma_moved_error(a, b, i + 1, end, by, open);
        if let Some(bracket) = a[i].kind.opens() {
            lemma_moved_error(a, b, i + 1, end, by, open.push(bracket));
        }
    }
}

/// Tokens have the same text wherever they stand.
pub proof fn lemma_moved_text(a: Seq<TokenView>, b: Seq<TokenView>, i: int, end: int, by: int)
    requires
        moved(a, b, i, end, by),
    ensures
        token_text(b, i + by, end + by) == token_text(a, i, end),
    decreases end - i,
{
    if i < end {
        lemma_moved_text(a, b, i, end - 1, by);
        assert(a[end - 1] == b[end - 1 + by]);
    }
}

/// Tokens are the same declaration wherever they stand.
pub proof fn lemma_moved_declaration(a: Seq<TokenView>, b: Seq<TokenView>, i: int, end: int, by: int)
    requires
        moved(a, b, i, end, by),
    ensures
        declaration(b, i + by, end + by) == declaration(a, i, end),
{
    let name = skip_space(a, i, end);
    lemma_moved_space(a, b, i, end, by);
    lemma_skip_space(a, i, end);
    if name < end {
        assert(a[name] == b[name + by]);
        let colon = skip_space(a, name + 1, end);
        lemma_moved_space(a, b, name + 1, end, by);
        lemma_skip_space(a, name + 1, end);
        if colon < end {
            assert(a[colon] == b[colon + by]);
            lemma_moved_error(a, b, colon + 1, end, by, Seq::empty());
            lemma_moved_text(a, b, i, end, by);
            if let Some(e) = first_error(a, colon + 1, end, Seq::empty()) {
                assert(a[e] == b[e + by]);
            }
        }
    }
}

/// An operator is read in the same way wherever it stands.
pub proof fn lemma_moved_operator(a: Seq<TokenView>, b: Seq<TokenView>, i: int, end: int, by: int)
    requires
        moved(a, b, i, end, by),
    ensures
        operator(b, i + by, end + by) == match operator(a, i, end) {
            Some((is_and, behind)) => Some((is_and, behind + by)),
            None => None,
        },
        operator(a, i, end) matches Some((_, behind)) ==> i < behind <= end,
{
    let p = skip_space(a, i, end);
    lemma_moved_space(a, b, i, end, by);
    lemma_skip_space(a, i, end);
    if p < end {
        assert(a[p] == b[p + by]);
    }
}

/// A result whose place is `by` places further on.
pub open spec fn moved_on<E>(r: Result<(ConditionView, int), E>, by: int) -> Result<
    (ConditionView, int),
    E,
> {
    match r {
        Ok((c, next)) => Ok((c, next + by)),
        Err(e) => Err(e),
    }
}

/// Tokens are the same condition wherever they stand.
pub proof fn lemma_moved_condition(a: Seq<TokenView>, b: Seq<TokenView>, i: int, end: int, by: int)
    requires
        moved(a, b, i, end, by),
        i <= end,
    ensures
        condition(b, i + by, end + by) == moved_on(condition(a, i, end), by),
    decreases end - i, 3int,
{
    let p = skip_space(a, i, end);
    lemma_moved_space(a, b, i, end, by);
    lemma_skip_space(a, i, end);
    if p < end {
        assert(a[p] == b[p + by]);
        lemma_moved_in_parens(a, b, p + 1, end, by);
    }
    lemma_moved_in_parens(a, b, i, end, by);
    lemma_progress(a, i, end);
    if let Ok((_, next)) = in_parens(a, i, end) {
        lemma_moved_operator(a, b, next, end, by);
        if let Some((is_and, _)) = operator(a, next, end) {
            lemma_moved_joined(a, b, next, end, by, is_and);
        }
    }
}

/// The same of joined conditions.
pub proof fn lemma_moved_joined(
    a: Seq<TokenView>,
    b: Seq<TokenView>,
    i: int,
    end: int,
    by: int,
    is_and: bool,
)
    requires
        moved(a, b, i, end, by),
        i <= end,
    ensures
        joined(b, i + by, end + by, is_and).0 == joined(a, i, end, is_and).0,
        joined(b, i + by, end + by, is_and).1 == joined(a, i, end, is_and).1 + by,
    decreases end - i, 2int,
{
    lemma_moved_operator(a, b, i, end, by);
    if let Some((found, behind)) = operator(a, i, end) {
        lemma_moved_in_parens(a, b, behind, end, by);
        if let Ok((_, next)) = in_parens(a, behind, end) {
            if i < next <= end {
                lemma_moved_joined(a, b, next, end, by, is_and);
            }
        }
    }
}

/// The same of conditions in parentheses.
pub proof fn lemma_moved_in_parens(a: Seq<TokenView>, b: Seq<TokenView>, i: int, end: int, by: int)
    requires
        moved(a, b, i, end, by),
        i <= end,
    ensures
        in_parens(b, i + by, end + by) == moved_on(in_parens(a, i, end), by),
    decreases end - i, 1int,
{
    let p = skip_space(a, i, end);
    lemma_moved_space(a, b, i, end, by);
    lemma_skip_space(a, i, end);
    if p < end {
        assert(a[p] == b[p + by]);
        let open = seq![Bracket::Paren];
        let close = block_end(a, p + 1, end, open);
        lemma_block_end(a, p + 1, end, open);
        lemma_moved_block(a, b, p + 1, end, by, open);
        lemma_moved_error(a, b, p + 1, close, by, Seq::empty());
        if let Some(e) = first_error(a, p + 1, close, Seq::empty()) {
            assert(a[e] == b[e + by]);
        }
        lemma_moved_text(a, b, p + 1, close, by);
        lemma_moved_text(a, b, p, behind_block(close, end), by);
        lemma_moved_group(a, b, p + 1, close, by);
    }
}

/// The same of what stands between parentheses.
pub proof fn lemma_moved_group(a: Seq<TokenView>, b: Seq<TokenView>, i: int, close: int, by: int)
    requires
        moved(a, b, i, close, by),
        i <= close,
    ensures
        group(b, i + by, close + by) == group(a, i, close),
    decreases close - i, 4int,
{
    lemma_moved_condition(a, b, i, close, by);
    lemma_moved_declaration(a, b, i, close, by);
    lemma_progress(a, i, close);
    if let Ok((_, next)) = condition(a, i, close) {
        lemma_moved_space(a, b, next, close, by);
    }
}

/// Brackets may be followed part by part.
pub proof fn lemma_stack_split(tokens: Seq<TokenView>, i: int, m: int, end: int, open: Seq<Bracket>)
    requires
        i <= m <= end,
    ensures
        stack_after(tokens, i, end, open) == match stack_after(tokens, i, m, open) {
            Some(stack) => stack_after(tokens, m, end, stack),
            None => None,
        },
    decreases m - i,
{
    if i < m {
        lemma_stack_split(tokens, i + 1, m, end, open.drop_last());
        lemma_stack_split(tokens, i + 1, m, end, open);
        if let Some(bracket) = tokens[i].kind.opens() {
            lemma_stack_split(tokens, i + 1, m, end, open.push(bracket));
        }
    }
}

/// Brackets that are open further out do not matter.
pub proof fn lemma_stack_outer(
    tokens: Seq<TokenView>,
    i: int,
    end: int,
    outer: Seq<Bracket>,
    open: Seq<Bracket>,
)
    requires
        open.len() > 0,
        stack_after(tokens, i, end, open) is Some,
    ensures
        stack_after(tokens, i, end, outer + open) == Some(
            outer + stack_after(tokens, i, end, open)->Some_0,
        ),
    decreases end - i,
{
    if i < end {
        assert((outer + open).last() == open.last());
        if tokens[i].kind == KindView::Close(open.last()) {
            assert((outer + open).drop_last() =~= outer + open.drop_last());
            lemma_stack_outer(tokens, i + 1, end, outer, open.drop_last());
        } else if let Some(bracket) = tokens[i].kind.opens() {
            assert((outer + open).push(bracket) =~= outer + open.push(bracket));
            lemma_stack_outer(tokens, i + 1, end, outer, open.push(bracket));
        } else {
            lemma_stack_outer(tokens, i + 1, end, outer, open);
        }
    }
}

/// Where the brackets inside are closed, the next closing parenthesis closes a block.
pub proof fn lemma_block_closed(
    tokens: Seq<TokenView>,
    i: int,
    m: int,
    end: int,
    open: Seq<Bracket>,
    bracket: Bracket,
)
    requires
        i <= m < end,
        open.len() > 0,
        stack_after(tokens, i, m, open) == Some(seq![bracket]),
        tokens[m].kind == KindView::Close(bracket),
    ensures
        block_end(tokens, i, end, open) == m,
    decreases m - i,
{
    if i < m {
        if tokens[i].kind == KindView::Close(open.last()) {
            lemma_block_closed(tokens, i + 1, m, end, open.drop_last(), bracket);
        } else if let Some(b) = tokens[i].kind.opens() {
            lemma_block_closed(tokens, i + 1, m, end, open.push(b), bracket);
        } else {
            lemma_block_closed(tokens, i + 1, m, end, open, bracket);
        }
    } else {
        assert(open =~= seq![bracket]);
        assert(open.last() == bracket);
    }
}

/// The brackets inside of a block that is closed are closed.
pub proof fn lemma_closed_inside(tokens: Seq<TokenView>, i: int, end: int, open: Seq<Bracket>)
    requires
        open.len() > 0,
        block_end(tokens, i, end, open) < end,
    ensures
        ({
            let close = block_end(tokens, i, end, open);
            &&& tokens[close].kind == KindView::Close(open.first())
            &&& stack_after(tokens, i, close, open) == Some(seq![open.first()])
        }),
    decreases end - i,
{
    lemma_block_end(tokens, i, end, open);
    if tokens[i].kind == KindView::Close(open.last()) {
        if open.len() == 1 {
            assert(open =~= seq![open.first()]);
        } else {
            lemma_closed_inside(tokens, i + 1, end, open.drop_last());
            lemma_block_end(tokens, i + 1, end, open.drop_last());
        }
    } else if let Some(b) = tokens[i].kind.opens() {
        lemma_closed_inside(tokens, i + 1, end, open.push(b));
        lemma_block_end(tokens, i + 1, end, open.push(b));
    } else {
        lemma_closed_inside(tokens, i + 1, end, open);
        lemma_block_end(tokens, i + 1, end, open);
    }
}

/// A bracket that is closed in the end is closed at some place, and what follows is balanced.
pub proof fn lemma_closes(
    tokens: Seq<TokenView>,
    i: int,
    end: int,
    outer: Seq<Bracket>,
    open: Seq<Bracket>,
)
    requires
        i <= end,
        outer.len() > 0,
        open.len() > 0,
        stack_after(tokens, i, end, outer + open) == Some(outer),
    ensures
        ({
            let close = block_end(tokens, i, end, open);
            &&& i <= close < end
            &&& stack_after(tokens, close + 1, end, outer) == Some(outer)
        }),
    decreases end - i,
{
    let all = outer + open;
    assert(all.last() == open.last());
    if i >= end {
        assert(all.len() > outer.len());
    } else if tokens[i].kind == KindView::Close(open.last()) {
        assert(all.drop_last() =~= outer + open.drop_last());
        if open.len() == 1 {
            assert(all.drop_last() =~= outer);
        } else {
            lemma_closes(tokens, i + 1, end, outer, open.drop_last());
        }
    } else if let Some(b) = tokens[i].kind.opens() {
        assert(all.push(b) =~= outer + open.push(b));
        lemma_closes(tokens, i + 1, end, outer, open.push(b));
    } else {
        lemma_closes(tokens, i + 1, end, outer, open);
    }
}

/// Whitespace opens and closes nothing.
pub proof fn lemma_balanced_space(tokens: Seq<TokenView>, i: int, end: int)
    requires
        i <= end,
        balanced(tokens, i, end),
    ensures
        balanced(tokens, skip_space(tokens, i, end), end),
    decreases end - i,
{
    if i < end && tokens[i].kind is Space {
        lemma_balanced_space(tokens, i + 1, end);
    }
}

/// A block in parentheses, among tokens that are balanced, is closed, and what is inside and what
/// is behind it is balanced.
pub proof fn lemma_balanced_block(tokens: Seq<TokenView>, p: int, end: int)
    requires
        p < end,
        balanced(tokens, p, end),
        tokens[p].kind.opens() == Some(Bracket::Paren),
    ensures
        ({
            let close = block_end(tokens, p + 1, end, seq![Bracket::Paren]);
            &&& p < close < end
            &&& tokens[close].kind == KindView::Close(Bracket::Paren)
            &&& balanced(tokens, p + 1, close)
            &&& balanced(tokens, close + 1, end)
        }),
{
    let one = seq![Bracket::Paren];
    assert(one.push(Bracket::Paren) =~= one + one);
    assert(tokens[p].kind != KindView::Close(one.last()));
    lemma_closes(tokens, p + 1, end, one, one);
    lemma_closed_inside(tokens, p + 1, end, one);
}

/// Whether `part` stands in `tokens` from place `at` on.
pub open spec fn stands_at(tokens: Seq<TokenView>, at: int, part: Seq<TokenView>) -> bool {
    moved(part, tokens, 0, part.len() as int, at)
}

/// A part of what stands somewhere stands there too.
pub proof fn lemma_part(
    tokens: Seq<TokenView>,
    at: int,
    a: Seq<TokenView>,
    b: Seq<TokenView>,
    c: Seq<TokenView>,
)
    requires
        stands_at(tokens, at, a + b + c),
    ensures
        stands_at(tokens, at, a),
        stands_at(tokens, at + a.len(), b),
        stands_at(tokens, at + a.len() + b.len(), c),
{
    let all = a + b + c;
    assert forall|k: int| 0 <= k < a.len() implies #[trigger] a[k] == tokens[k + at] by {
        assert(all[k] == a[k]);
    }
    assert forall|k: int| 0 <= k < b.len() implies #[trigger] b[k] == tokens[k + (at
        + a.len())] by {
        assert(all[k + a.len()] == b[k]);
    }
    assert forall|k: int| 0 <= k < c.len() implies #[trigger] c[k] == tokens[k + (at + a.len()
        + b.len())] by {
        assert(all[k + a.len() + b.len()] == c[k]);
    }
}

/// The text of tokens part by part.
pub proof fn lemma_text_split(tokens: Seq<TokenView>, i: int, m: int, end: int)
    requires
        i <= m <= end,
    ensures
        token_text(tokens, i, end) == token_text(tokens, i, m) + token_text(tokens, m, end),
    decreases end - m,
{
    if m < end {
        lemma_text_split(tokens, i, m, end - 1);
        assert(token_text(tokens, i, end) =~= token_text(tokens, i, m) + token_text(
            tokens,
            m,
            end,
        ));
    } else {
        assert(token_text(tokens, i, m) + Seq::<char>::empty() =~= token_text(tokens, i, m));
    }
}

/// The text of all tokens of a list.
pub open spec fn text_of(list: Seq<TokenView>) -> Seq<char> {
    token_text(list, 0, list.len() as int)
}

/// The text and the brackets of two lists one after the other.
pub proof fn lemma_joined_lists(a: Seq<TokenView>, b: Seq<TokenView>)
    ensures
        text_of(a + b) == text_of(a) + text_of(b),
        balanced(a, 0, a.len() as int) && balanced(b, 0, b.len() as int) ==> balanced(
            a + b,
            0,
            (a + b).len() as int,
        ),
{
    let all = a + b;
    let n = a.len() as int;
    let end = all.len() as int;
    assert(moved(a, all, 0, n, 0));
    assert(moved(b, all, 0, b.len() as int, n)) by {
        assert forall|k: int| 0 <= k < b.len() implies #[trigger] b[k] == all[k + n] by {}
    }
    lemma_text_split(all, 0, n, end);
    lemma_moved_text(a, all, 0, n, 0);
    lemma_moved_text(b, all, 0, b.len() as int, n);
    let one = seq![Bracket::Paren];
    lemma_stack_split(all, 0, n, end, one);
    lemma_moved_block(a, all, 0, n, 0, one);
    lemma_moved_block(b, all, 0, b.len() as int, n, one);
}

/// The text and the brackets of one token.
pub proof fn lemma_one_token(t: TokenView)
    ensures
        text_of(seq![t]) == t.text,
        t.kind.opens() is None && t.kind != KindView::Close(Bracket::Paren) ==> balanced(
            seq![t],
            0,
            1,
        ),
{
    let list = seq![t];
    assert(list[0] == t);
    assert(token_text(list, 0, 0) =~= Seq::empty());
    assert(token_text(list, 0, 1) =~= t.text);
    let one = seq![Bracket::Paren];
    assert(stack_after(list, 1, 1, one) == Some(one));
}

/// What a block is in its place: it ends where its last token stands, and its brackets are closed.
pub proof fn lemma_block(tokens: Seq<TokenView>, at: int, end: int, block: Seq<TokenView>)
    requires
        stands_at(tokens, at, block),
        block.len() >= 2,
        at + block.len() <= end,
        block.first().kind.opens() == Some(Bracket::Paren),
        block.last().kind == KindView::Close(Bracket::Paren),
        balanced(block, 1, block.len() - 1),
    ensures
        block_end(tokens, at + 1, end, seq![Bracket::Paren]) == at + block.len() - 1,
        balanced(block, 0, block.len() as int),
{
    let one = seq![Bracket::Paren];
    let n = block.len() as int;
    assert(block[n - 1] == tokens[n - 1 + at]);
    assert(moved(block, tokens, 1, n - 1, at));
    lemma_moved_block(block, tokens, 1, n - 1, at, one);
    lemma_block_closed(tokens, at + 1, at + n - 1, end, one, Bracket::Paren);
    lemma_stack_outer(block, 1, n - 1, one, one);
    assert(one.push(Bracket::Paren) =~= one + one);
    lemma_stack_split(block, 1, n - 1, n, one + one);
    assert(block[n - 1].kind == KindView::Close((one + one).last()));
    assert((one + one).drop_last() =~= one);
    assert(stack_after(block, n, n, one) == Some(one));
    assert(stack_after(block, n - 1, n, one + one) == Some(one));
    assert(block[0].kind != KindView::Close(one.last()));
}

/// What stands in parentheses.
pub proof fn lemma_enclosed(open: TokenView, inner: Seq<TokenView>)
    requires
        balanced(inner, 0, inner.len() as int),
    ensures
        ({
            let block = enclosed(open, inner);
            &&& block.len() == inner.len() + 2
            &&& block.first() == open
            &&& block.last() == close_token()
            &&& balanced(block, 1, block.len() - 1)
            &&& text_of(block) == open.text + text_of(inner) + ")"@
        }),
{
    let block = enclosed(open, inner);
    let n = inner.len() as int;
    assert(moved(inner, block, 0, n, 1)) by {
        assert forall|k: int| 0 <= k < n implies #[trigger] inner[k] == block[k + 1] by {}
    }
    lemma_moved_block(inner, block, 0, n, 1, seq![Bracket::Paren]);
    lemma_joined_lists(seq![open] + inner, seq![close_token()]);
    lemma_joined_lists(seq![open], inner);
    lemma_one_token(open);
    lemma_one_token(close_token());
}

/// What a copy of tokens is.
pub proof fn lemma_copy(tokens: Seq<TokenView>, i: int, end: int)
    requires
        0 <= i <= end <= tokens.len(),
    ensures
        ({
            let copy = tokens.subrange(i, end);
            &&& copy.len() == end - i
            &&& text_of(copy) == token_text(tokens, i, end)
            &&& balanced(tokens, i, end) ==> balanced(copy, 0, copy.len() as int)
        }),
{
    let copy = tokens.subrange(i, end);
    let n = copy.len() as int;
    assert(moved(copy, tokens, 0, n, i)) by {
        assert forall|k: int| 0 <= k < n implies #[trigger] copy[k] == tokens[k + i] by {}
    }
    lemma_moved_text(copy, tokens, 0, n, i);
    lemma_moved_block(copy, tokens, 0, n, i, seq![Bracket::Paren]);
}

/// The text of conditions that follow an operator.
pub open spec fn tail_css(list: Seq<ConditionView>, separator: Seq<char>) -> Seq<char>
    decreases list.len(),
{
    if list.len() == 0 {
        Seq::empty()
    } else {
        tail_css(list.drop_last(), separator) + separator + condition_css(list.last())
    }
}

/// The first of the conditions that follow an operator.
pub proof fn lemma_tail(first: ConditionView, others: Seq<ConditionView>, separator: Seq<char>)
    ensures
        tail_css(seq![first] + others, separator) == separator + condition_css(first) + tail_css(
            others,
            separator,
        ),
    decreases others.len(),
{
    let all = seq![first] + others;
    if others.len() == 0 {
        assert(all =~= seq![first]);
        assert(all.drop_last() =~= Seq::empty());
        assert(tail_css(all.drop_last(), separator) =~= Seq::empty());
        assert(tail_css(all, separator) =~= separator + condition_css(first) + tail_css(
            others,
            separator,
        ));
    } else {
        assert(all.drop_last() =~= seq![first] + others.drop_last());
        lemma_tail(first, others.drop_last(), separator);
        assert(tail_css(all, separator) =~= separator + condition_css(first) + tail_css(
            others,
            separator,
        ));
    }
}

/// Joined conditions are the first one and those that follow.
pub proof fn lemma_joined_css(first: ConditionView, others: Seq<ConditionView>, separator: Seq<char>)
    ensures
        joined_css(seq![first] + others, separator) == condition_css(first) + tail_css(
            others,
            separator,
        ),
    decreases others.len(),
{
    let all = seq![first] + others;
    if others.len() == 0 {
        assert(all =~= seq![first]);
        assert(joined_css(all, separator) =~= condition_css(first) + tail_css(others, separator));
    } else {
        assert(all.drop_last() =~= seq![first] + others.drop_last());
        lemma_joined_css(first, others.drop_last(), separator);
        assert(joined_css(all, separator) =~= condition_css(first) + tail_css(others, separator));
    }
}

/// The tokens that are printed of a condition in parentheses are that condition wherever they
/// stand.
pub proof fn lemma_in_parens_again(
    a: Seq<TokenView>,
    i: int,
    end: int,
    b: Seq<TokenView>,
    at: int,
    e: int,
)
    requires
        0 <= i <= end <= a.len(),
        balanced(a, i, end),
        in_parens(a, i, end) is Ok,
        stands_at(b, at, rewritten_in_parens(a, i, end)),
        at + rewritten_in_parens(a, i, end).len() <= e,
    ensures
        ({
            let block = rewritten_in_parens(a, i, end);
            let (c, next) = in_parens(a, i, end)->Ok_0;
            &&& i < next <= end
            &&& balanced(a, next, end)
            &&& block.len() > 0
            &&& block.first().kind.opens() == Some(Bracket::Paren)
            &&& balanced(block, 0, block.len() as int)
            &&& text_of(block) == condition_css(c)
            &&& in_parens(b, at, e) == Ok::<(ConditionView, int), ParserErrorView>(
                (c, at + block.len()),
            )
        }),
    decreases end - i, 1int,
{
    let block = rewritten_in_parens(a, i, end);
    let one = seq![Bracket::Paren];
    let p = skip_space(a, i, end);
    lemma_skip_space(a, i, end);
    lemma_balanced_space(a, i, end);
    lemma_balanced_block(a, p, end);
    let close = block_end(a, p + 1, end, one);
    let n = close - p - 1;
    lemma_copy(a, p + 1, close);
    lemma_copy(a, p, close + 1);
    let inner = a.subrange(p + 1, close);
    let whole = a.subrange(p, close + 1);
    assert(balanced(whole, 1, whole.len() - 1)) by {
        assert(moved(whole, a, 1, whole.len() - 1, p));
        lemma_moved_block(whole, a, 1, whole.len() - 1, p, one);
    }
    match a[p].kind {
        KindView::Function(name) => {
            let open = if is_keyword(name, "selector"@) {
                lemma_enclosed(selector_token(), inner);
                selector_token()
            } else {
                assert(block == whole);
                a[p]
            };
            assert(block.len() == n + 2 && block[0] == open);
            lemma_block(b, at, e, block);
            assert(b[at] == block[0]) by {
                assert(block[0] == b[0 + at]);
            }
            assert(moved(a, b, p + 1, close, at - p)) by {
                assert forall|k: int| p + 1 <= k < close implies #[trigger] a[k] == b[k + (at
                    - p)] by {
                    assert(block[k - p] == a[k]);
                }
            }
            lemma_moved_error(a, b, p + 1, close, at - p, Seq::empty());
            lemma_moved_text(a, b, p + 1, close, at - p);
            assert(skip_space(b, at, e) == at);
            if !is_keyword(name, "selector"@) {
                assert(moved(whole, b, 0, whole.len() as int, at));
                lemma_moved_text(whole, b, 0, whole.len() as int, at);
            }
        },
        KindView::Open(Bracket::Paren) => {
            match condition(a, p + 1, close) {
                Ok((c, next)) => {
                    if skip_space(a, next, close) >= close {
                        lemma_inner_again(a, i, end, b, at, e);
                    } else {
                        assert(block == whole);
                        lemma_unknown_again(a, p, close, b, at, e);
                    }
                },
                Err(_) => {
                    if declaration(a, p + 1, close) is Ok {
                        lemma_enclosed(open_token(), inner);
                        lemma_block(b, at, e, block);
                        assert(block[0] == b[0 + at]);
                        assert(moved(a, b, p + 1, close, at - p)) by {
                            assert forall|k: int| p + 1 <= k < close implies #[trigger] a[k] == b[k
                                + (at - p)] by {
                                assert(block[k - p] == a[k]);
                            }
                        }
                        lemma_moved_group(a, b, p + 1, close, at - p);
                        assert(skip_space(b, at, e) == at);
                    } else {
                        assert(block == whole);
                        lemma_unknown_again(a, p, close, b, at, e);
                    }
                },
            }
        },
        _ => {},
    }
}

/// The same of parentheses with something unknown inside.
pub proof fn lemma_unknown_again(
    a: Seq<TokenView>,
    p: int,
    close: int,
    b: Seq<TokenView>,
    at: int,
    e: int,
)
    requires
        0 <= p < close < a.len(),
        a[p].kind == KindView::Open(Bracket::Paren),
        a[close].kind == KindView::Close(Bracket::Paren),
        balanced(a, p + 1, close),
        group(a, p + 1, close) is None,
        first_error(a, p + 1, close, Seq::empty()) is None,
        stands_at(b, at, a.subrange(p, close + 1)),
        at + (close + 1 - p) <= e,
    ensures
        in_parens(b, at, e) == Ok::<(ConditionView, int), ParserErrorView>(
            (ConditionView::Unknown(token_text(a, p, close + 1)), at + (close + 1 - p)),
        ),
        balanced(a.subrange(p, close + 1), 0, close + 1 - p),
{
    let whole = a.subrange(p, close + 1);
    assert(balanced(whole, 1, whole.len() - 1)) by {
        assert(moved(whole, a, 1, whole.len() - 1, p));
        lemma_moved_block(whole, a, 1, whole.len() - 1, p, seq![Bracket::Paren]);
    }
    lemma_block(b, at, e, whole);
    assert(whole[0] == b[0 + at]);
    assert(moved(a, b, p, close + 1, at - p)) by {
        assert forall|k: int| p <= k < close + 1 implies #[trigger] a[k] == b[k + (at - p)] by {
            assert(whole[k - p] == a[k]);
        }
    }
    lemma_moved_error(a, b, p + 1, close, at - p, Seq::empty());
    lemma_moved_text(a, b, p, close + 1, at - p);
    lemma_moved_group(a, b, p + 1, close, at - p);
    assert(skip_space(b, at, e) == at);
}

/// The same of parentheses with a condition inside.
pub proof fn lemma_inner_again(
    a: Seq<TokenView>,
    i: int,
    end: int,
    b: Seq<TokenView>,
    at: int,
    e: int,
)
    requires
        ({
            let p = skip_space(a, i, end);
            let close = block_end(a, p + 1, end, seq![Bracket::Paren]);
            &&& 0 <= i <= p < close < end <= a.len()
            &&& a[p].kind == KindView::Open(Bracket::Paren)
            &&& balanced(a, p + 1, close)
            &&& condition(a, p + 1, close) matches Ok((_, next)) && skip_space(a, next, close)
                >= close
        }),
        stands_at(b, at, rewritten_in_parens(a, i, end)),
        at + rewritten_in_parens(a, i, end).len() <= e,
    ensures
        ({
            let block = rewritten_in_parens(a, i, end);
            let (c, next) = in_parens(a, i, end)->Ok_0;
            &&& block.len() > 0
            &&& block.first().kind.opens() == Some(Bracket::Paren)
            &&& balanced(block, 0, block.len() as int)
            &&& text_of(block) == condition_css(c)
            &&& in_parens(b, at, e) == Ok::<(ConditionView, int), ParserErrorView>(
                (c, at + block.len()),
            )
        }),
    decreases end - i, 0int,
{
    let block = rewritten_in_parens(a, i, end);
    let p = skip_space(a, i, end);
    let close = block_end(a, p + 1, end, seq![Bracket::Paren]);
    let inner = rewritten(a, p + 1, close);
    assert(block == enclosed(open_token(), inner));
    lemma_part(b, at, seq![open_token()], inner, seq![close_token()]);
    let m = at + 1 + inner.len();
    lemma_condition_again(a, p + 1, close, b, at + 1, m);
    lemma_enclosed(open_token(), inner);
    lemma_block(b, at, e, block);
    assert(block[0] == b[0 + at]);
    assert(skip_space(b, at, e) == at);
    assert(skip_space(b, m, m) == m);
}

/// The tokens that are printed of a condition are that condition wherever they stand.
pub proof fn lemma_condition_again(
    a: Seq<TokenView>,
    i: int,
    end: int,
    b: Seq<TokenView>,
    at: int,
    e: int,
)
    requires
        0 <= i <= end <= a.len(),
        balanced(a, i, end),
        condition(a, i, end) matches Ok((_, next)) && skip_space(a, next, end) >= end,
        stands_at(b, at, rewritten(a, i, end)),
        at + rewritten(a, i, end).len() == e,
    ensures
        ({
            let list = rewritten(a, i, end);
            let (c, next) = condition(a, i, end)->Ok_0;
            &&& balanced(list, 0, list.len() as int)
            &&& text_of(list) == condition_css(c)
            &&& condition(b, at, e) == Ok::<(ConditionView, int), ParserErrorView>((c, e))
        }),
    decreases end - i, 3int,
{
    let list = rewritten(a, i, end);
    let p = skip_space(a, i, end);
    lemma_skip_space(a, i, end);
    let negated = i <= p < end && (a[p].kind matches KindView::Ident(name) && is_keyword(
        name,
        "not"@,
    ));
    if negated {
        lemma_balanced_space(a, i, end);
        let block = rewritten_in_parens(a, p + 1, end);
        let start = seq![word("not"@), space_token()];
        assert(list == start + block);
        assert(start + block =~= start + block + Seq::empty());
        lemma_part(b, at, start, block, Seq::empty());
        assert(start[0] == b[0 + at] && start[1] == b[1 + at]);
        assert(balanced(a, p + 1, end));
        lemma_in_parens_again(a, p + 1, end, b, at + 2, e);
        assert(block[0] == b[0 + (at + 2)]);
        assert(skip_space(b, at + 2, e) == at + 2);
        assert(skip_space(b, at + 1, e) == at + 2);
        assert(in_parens(b, at + 1, e) == in_parens(b, at + 2, e));
        assert(skip_space(b, at, e) == at);
        lemma_one_token(word("not"@));
        lemma_one_token(space_token());
        assert(start =~= seq![word("not"@)] + seq![space_token()]);
        lemma_joined_lists(seq![word("not"@)], seq![space_token()]);
        lemma_joined_lists(start, block);
        reveal_strlit("not");
        reveal_strlit(" ");
        reveal_strlit("not ");
        assert("not"@ + " "@ =~= "not "@);
    } else {
        let block = rewritten_in_parens(a, i, end);
        let (first, next) = in_parens(a, i, end)->Ok_0;
        lemma_progress(a, i, end);
        match operator(a, next, end) {
            Some((is_and, _)) => {
                let tail = rewritten_joined(a, next, end, is_and);
                let (others, behind) = joined(a, next, end, is_and);
                assert(list == block + tail);
                assert(block + tail =~= block + tail + Seq::empty());
                lemma_part(b, at, block, tail, Seq::empty());
                lemma_in_parens_again(a, i, end, b, at, e);
                let m = at + block.len();
                lemma_joined_again(a, next, end, is_and, b, m, e);
                if others.len() == 0 {
                    lemma_skip_space(a, next, end);
                    assert(behind == next);
                }
                assert(block[0] == b[0 + at]);
                assert(skip_space(b, at, e) == at);
                assert(operator(b, m, e) matches Some((found, _)) && found == is_and);
                lemma_joined_lists(block, tail);
                lemma_joined_css(first, others, if is_and { " and "@ } else { " or "@ });
            },
            None => {
                assert(list == block);
                lemma_in_parens_again(a, i, end, b, at, e);
                assert(block[0] == b[0 + at]);
                assert(skip_space(b, at, e) == at);
                assert(skip_space(b, e, e) == e);
                assert(operator(b, e, e) is None);
            },
        }
    }
}

/// Conditions that follow an operator and are printed read as themselves wherever they stand.
pub proof fn lemma_joined_again(
    a: Seq<TokenView>,
    i: int,
    end: int,
    is_and: bool,
    b: Seq<TokenView>,
    at: int,
    e: int,
)
    requires
        0 <= i <= end <= a.len(),
        balanced(a, i, end),
        stands_at(b, at, rewritten_joined(a, i, end, is_and)),
        at + rewritten_joined(a, i, end, is_and).len() == e,
    ensures
        ({
            let list = rewritten_joined(a, i, end, is_and);
            let others = joined(a, i, end, is_and).0;
            &&& balanced(list, 0, list.len() as int)
            &&& text_of(list) == tail_css(others, if is_and { " and "@ } else { " or "@ })
            &&& joined(b, at, e, is_and) == (others, e)
            &&& others.len() > 0 ==> (operator(b, at, e) matches Some((found, _)) && found
                == is_and)
            &&& others.len() == 0 ==> joined(a, i, end, is_and).1 == i
        }),
    decreases end - i, 2int,
{
    let list = rewritten_joined(a, i, end, is_and);
    let separator = if is_and { " and "@ } else { " or "@ };
    let follows = operator(a, i, end) matches Some((found, behind)) && found == is_and && (in_parens(
        a,
        behind,
        end,
    ) matches Ok((_, next)) && i < next <= end);
    if follows {
        let (_, behind) = operator(a, i, end)->Some_0;
        let (first, next) = in_parens(a, behind, end)->Ok_0;
        let p = skip_space(a, i, end);
        lemma_skip_space(a, i, end);
        lemma_balanced_space(a, i, end);
        assert(behind == p + 1);
        assert(balanced(a, behind, end));
        let start = seq![space_token(), operator_token(is_and), space_token()];
        let block = rewritten_in_parens(a, behind, end);
        let rest = rewritten_joined(a, next, end, is_and);
        let others = joined(a, next, end, is_and).0;
        assert(list == start + block + rest);
        lemma_part(b, at, start, block, rest);
        assert(start[0] == b[0 + at] && start[1] == b[1 + at] && start[2] == b[2 + at]);
        lemma_in_parens_again(a, behind, end, b, at + 3, e);
        let m = at + 3 + block.len();
        lemma_joined_again(a, next, end, is_and, b, m, e);
        assert(block[0] == b[0 + (at + 3)]);
        assert(skip_space(b, at + 1, e) == at + 1);
        assert(skip_space(b, at, e) == at + 1);
        assert(skip_space(b, at + 3, e) == at + 3);
        assert(skip_space(b, at + 2, e) == at + 3);
        assert(in_parens(b, at + 2, e) == in_parens(b, at + 3, e));
        lemma_keywords();
        assert(operator(b, at, e) == Some((is_and, at + 2)));
        assert(joined(b, at, e, is_and) == (seq![first] + others, e));
        let word = operator_token(is_and);
        lemma_one_token(space_token());
        lemma_one_token(word);
        assert(start =~= seq![space_token()] + seq![word] + seq![space_token()]);
        lemma_joined_lists(seq![space_token()], seq![word]);
        lemma_joined_lists(seq![space_token()] + seq![word], seq![space_token()]);
        lemma_joined_lists(start, block);
        lemma_joined_lists(start + block, rest);
        lemma_tail(first, others, separator);
        assert(" "@ + word.text + " "@ =~= separator);
    } else {
        assert(list.len() == 0);
        assert(text_of(list) =~= Seq::empty());
        assert(stack_after(list, 0, 0, seq![Bracket::Paren]) == Some(seq![Bracket::Paren]));
        assert(skip_space(b, e, e) == e);
        assert(operator(b, at, e) is None);
    }
}

/// The keywords that are printed.
pub proof fn lemma_keywords()
    ensures
        is_keyword("and"@, "and"@),
        is_keyword("or"@, "or"@),
        !is_keyword("or"@, "and"@),
        " "@ + "and"@ + " "@ == " and "@,
        " "@ + "or"@ + " "@ == " or "@,
{
    reveal_strlit("and");
    reveal_strlit("or");
    reveal_strlit(" ");
    reveal_strlit(" and ");
    reveal_strlit(" or ");
    assert(ascii_lower("or"@).len() == 2 && ascii_lower("and"@).len() == 3);
    assert(" "@ + "and"@ + " "@ =~= " and "@);
    assert(" "@ + "or"@ + " "@ =~= " or "@);
}

/// Where tokens are balanced and are a condition as a whole, [`rewritten`] gives tokens that make
/// up the text that is printed of it, and that are this condition as a whole. That the tokenizer
/// finds these tokens in that text is not stated: its result is only named.
pub proof fn law_printed_tokens_are_the_condition(tokens: Seq<TokenView>, i: int, end: int)
    requires
        0 <= i <= end <= tokens.len(),
        balanced(tokens, i, end),
        condition(tokens, i, end) matches Ok((_, next)) && skip_space(tokens, next, end) >= end,
    ensures
        ({
            let printed = rewritten(tokens, i, end);
            let c = condition(tokens, i, end)->Ok_0.0;
            let n = printed.len() as int;
            &&& token_text(printed, 0, n) == condition_css(c)
            &&& condition(printed, 0, n) == Ok::<(ConditionView, int), ParserErrorView>((c, n))
        }),
{
    let printed = rewritten(tokens, i, end);
    assert(stands_at(printed, 0, printed));
    lemma_condition_again(tokens, i, end, printed, 0, printed.len() as int);
}

} // verus!
