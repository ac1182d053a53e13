//! How conditions are written: what tokens are read as, and that what is printed of a condition is
//! read as that condition.
use crate::error::ParserErrorView;
use crate::location::Location;
use crate::print_laws::{gap, law_supports_rule_text};
use crate::printer::PrinterView;
use crate::rewrite::{
    balanced, enclosed, lemma_block, lemma_enclosed, lemma_joined_css, lemma_joined_lists,
    lemma_keywords, lemma_moved_block, lemma_moved_error, lemma_moved_group, lemma_moved_text,
    lemma_one_token, lemma_part, lemma_tail, moved, open_token, operator_token, space_token,
    stack_after, stands_at, tail_css, text_of, word,
};
use crate::rules::RuleView;
use crate::rules_css::rule_css;
use crate::supports::{
    condition_css, conjoined, disjoined, joined_css, ConditionView,
};
use crate::supports_parser::{
    ascii_lower, behind_item, behind_place, block_end, condition, condition_stop, declaration,
    declaration_stop, first_error, group, in_parens, is_keyword, joined, lemma_block_end, operator,
    skip_space,
};
use crate::token::{kind_of, token_text, Bracket, KindView, RawView, TokenView};
use vstd::prelude::*;

verus! {

/// Whether tokens are a block in parentheses that is read as the condition `c`.
pub open spec fn is_block(block: Seq<TokenView>, c: ConditionView) -> bool {
    let n = block.len() as int;
    &&& n >= 2
    &&& block.first().kind.opens() == Some(Bracket::Paren)
    &&& block.last().kind == KindView::Close(Bracket::Paren)
    &&& balanced(block, 1, n - 1)
    &&& in_parens(block, 0, n) == Ok::<(ConditionView, int), ParserErrorView>((c, n))
}

/// Whether tokens are whitespace and comments.
pub open spec fn is_space(tokens: Seq<TokenView>) -> bool {
    forall|k: int| 0 <= k < tokens.len() ==> #[trigger] tokens[k].kind is Space
}

/// A block is read in the same way wherever it stands.
proof fn lemma_block_anywhere(
    tokens: Seq<TokenView>,
    at: int,
    end: int,
    block: Seq<TokenView>,
    c: ConditionView,
)
    requires
        is_block(block, c),
        stands_at(tokens, at, block),
        at + block.len() <= end,
    ensures
        in_parens(tokens, at, end) == Ok::<(ConditionView, int), ParserErrorView>(
            (c, at + block.len()),
        ),
        skip_space(tokens, at, end) == at,
        balanced(block, 0, block.len() as int),
{
    let n = block.len() as int;
    lemma_block(tokens, at, end, block);
    assert(stands_at(block, 0, block));
    lemma_block(block, 0, n, block);
    assert(block[0] == tokens[0 + at]);
    assert(moved(block, tokens, 1, n - 1, at));
    lemma_moved_error(block, tokens, 1, n - 1, at, Seq::empty());
    lemma_moved_text(block, tokens, 1, n - 1, at);
    lemma_moved_text(block, tokens, 0, n, at);
    lemma_moved_group(block, tokens, 1, n - 1, at);
    assert(skip_space(tokens, at, end) == at);
    assert(skip_space(block, 0, n) == 0);
}

/// Whitespace is passed over.
proof fn lemma_pass(tokens: Seq<TokenView>, at: int, end: int, spaces: Seq<TokenView>)
    requires
        is_space(spaces),
        stands_at(tokens, at, spaces),
        at + spaces.len() <= end,
    ensures
        skip_space(tokens, at, end) == skip_space(tokens, at + spaces.len(), end),
    decreases spaces.len(),
{
    if spaces.len() > 0 {
        let rest = spaces.drop_first();
        assert(spaces[0] == tokens[0 + at]);
        assert forall|k: int| 0 <= k < rest.len() implies #[trigger] rest[k] == tokens[k + (at
            + 1)] by {
            assert(spaces[k + 1] == tokens[k + 1 + at]);
        }
        assert forall|k: int| 0 <= k < rest.len() implies #[trigger] rest[k].kind is Space by {
            assert(spaces[k + 1] == rest[k]);
        }
        lemma_pass(tokens, at + 1, end, rest);
    }
}

/// Two places from which the same token comes next are as good.
proof fn lemma_same_in_parens(tokens: Seq<TokenView>, i: int, j: int, end: int)
    requires
        skip_space(tokens, i, end) == skip_space(tokens, j, end),
    ensures
        in_parens(tokens, i, end) == in_parens(tokens, j, end),
{
}

/// `not`, in upper or lower case, before a block is read as the negated condition, with any
/// whitespace before and between them.
pub proof fn law_not_is_read(
    before: Seq<TokenView>,
    not: TokenView,
    between: Seq<TokenView>,
    block: Seq<TokenView>,
    c: ConditionView,
)
    requires
        is_space(before),
        is_space(between),
        not.kind matches KindView::Ident(name) && ascii_lower(name) == ascii_lower("not"@),
        is_block(block, c),
    ensures
        ({
            let tokens = before + seq![not] + between + block;
            let n = tokens.len() as int;
            condition(tokens, 0, n) == Ok::<(ConditionView, int), ParserErrorView>(
                (ConditionView::Not(Box::new(c)), n),
            )
        }),
{
    let tokens = before + seq![not] + between + block;
    let n = tokens.len() as int;
    let p = before.len() as int;
    let q = p + 1 + between.len();
    assert(stands_at(tokens, 0, before)) by {
        assert forall|k: int| 0 <= k < before.len() implies #[trigger] before[k] == tokens[k
            + 0] by {}
    }
    assert(stands_at(tokens, p + 1, between)) by {
        assert forall|k: int| 0 <= k < between.len() implies #[trigger] between[k] == tokens[k
            + (p + 1)] by {}
    }
    assert(stands_at(tokens, q, block)) by {
        assert forall|k: int| 0 <= k < block.len() implies #[trigger] block[k] == tokens[k + q]
        by {}
    }
    lemma_pass(tokens, 0, n, before);
    assert(tokens[p] == not);
    assert(skip_space(tokens, p, n) == p);
    lemma_pass(tokens, p + 1, n, between);
    lemma_same_in_parens(tokens, p + 1, q, n);
    lemma_block_anywhere(tokens, q, n, block, c);
}

/// Tokens that are a condition as a whole, between parentheses, are that condition in parentheses.
pub proof fn law_parentheses_are_read(inner: Seq<TokenView>, c: ConditionView)
    requires
        balanced(inner, 0, inner.len() as int),
        condition(inner, 0, inner.len() as int) matches Ok((found, next)) && found == c
            && skip_space(inner, next, inner.len() as int) >= inner.len(),
    ensures
        is_block(enclosed(open_token(), inner), ConditionView::Parens(Box::new(c))),
{
    let block = enclosed(open_token(), inner);
    let m = inner.len() as int;
    lemma_enclosed(open_token(), inner);
    lemma_block_of(open_token(), inner);
    assert(group(inner, 0, m) == Some(ConditionView::Parens(Box::new(c))));
}

/// What is found between the parentheses of a block.
proof fn lemma_block_of(open: TokenView, inner: Seq<TokenView>)
    requires
        balanced(inner, 0, inner.len() as int),
        open.kind.opens() == Some(Bracket::Paren),
    ensures
        ({
            let block = enclosed(open, inner);
            let n = block.len() as int;
            let m = inner.len() as int;
            &&& n == m + 2
            &&& block.first() == open
            &&& block.last().kind == KindView::Close(Bracket::Paren)
            &&& balanced(block, 1, n - 1)
            &&& skip_space(block, 0, n) == 0
            &&& block[0] == open
            &&& block_end(block, 1, n, seq![Bracket::Paren]) == n - 1
            &&& group(block, 1, n - 1) == group(inner, 0, m)
            &&& (first_error(block, 1, n - 1, Seq::empty()) is None <==> first_error(
                inner,
                0,
                m,
                Seq::empty(),
            ) is None)
            &&& token_text(block, 1, n - 1) == text_of(inner)
            &&& token_text(block, 0, n) == open.text + text_of(inner) + ")"@
        }),
{
    let block = enclosed(open, inner);
    let n = block.len() as int;
    let m = inner.len() as int;
    lemma_enclosed(open, inner);
    assert(stands_at(block, 0, block));
    lemma_block(block, 0, n, block);
    assert(moved(inner, block, 0, m, 1)) by {
        assert forall|k: int| 0 <= k < m implies #[trigger] inner[k] == block[k + 1] by {}
    }
    lemma_moved_group(inner, block, 0, m, 1);
    lemma_moved_error(inner, block, 0, m, 1, Seq::empty());
    lemma_moved_text(inner, block, 0, m, 1);
    assert(block[0] == open);
}

/// `selector(`, in upper or lower case, with anything that CSS may hold up to the parenthesis that
/// closes it is read as that selector, and any other function as something unknown.
pub proof fn law_function_is_read(open: TokenView, inner: Seq<TokenView>)
    requires
        open.kind is Function,
        balanced(inner, 0, inner.len() as int),
        first_error(inner, 0, inner.len() as int, Seq::empty()) is None,
    ensures
        ascii_lower(open.kind->Function_0) == ascii_lower("selector"@) ==> is_block(
            enclosed(open, inner),
            ConditionView::Selector(text_of(inner)),
        ),
        ascii_lower(open.kind->Function_0) != ascii_lower("selector"@) ==> is_block(
            enclosed(open, inner),
            ConditionView::Unknown(open.text + text_of(inner) + ")"@),
        ),
{
    lemma_block_of(open, inner);
}

/// A name and a colon, with anything that CSS may hold behind them, between parentheses, are read
/// as a declaration; its text is all that stands between the parentheses.
pub proof fn law_declaration_is_read(
    before: Seq<TokenView>,
    name: TokenView,
    between: Seq<TokenView>,
    colon: TokenView,
    value: Seq<TokenView>,
)
    requires
        is_space(before),
        is_space(between),
        name.kind is Ident,
        colon.kind is Colon,
        balanced(before + seq![name] + between + seq![colon] + value, 0, (before + seq![name]
            + between + seq![colon] + value).len() as int),
        first_error(
            before + seq![name] + between + seq![colon] + value,
            before.len() + 1 + between.len() + 1int,
            (before + seq![name] + between + seq![colon] + value).len() as int,
            Seq::empty(),
        ) is None,
    ensures
        ({
            let inner = before + seq![name] + between + seq![colon] + value;
            is_block(
                enclosed(open_token(), inner),
                ConditionView::Declaration(text_of(inner)),
            )
        }),
{
    let inner = before + seq![name] + between + seq![colon] + value;
    let m = inner.len() as int;
    let p = before.len() as int;
    let q = p + 1 + between.len();
    assert(stands_at(inner, 0, before)) by {
        assert forall|k: int| 0 <= k < before.len() implies #[trigger] before[k] == inner[k
            + 0] by {}
    }
    assert(stands_at(inner, p + 1, between)) by {
        assert forall|k: int| 0 <= k < between.len() implies #[trigger] between[k] == inner[k
            + (p + 1)] by {}
    }
    lemma_pass(inner, 0, m, before);
    lemma_pass(inner, p + 1, m, between);
    assert(inner[p] == name);
    assert(inner[q] == colon);
    assert(skip_space(inner, p, m) == p);
    assert(skip_space(inner, q, m) == q);
    assert(in_parens(inner, p + 1, m) is Err);
    assert(in_parens(inner, 0, m) is Err);
    assert(condition(inner, 0, m) is Err);
    assert(declaration(inner, 0, m) is Ok);
    lemma_block_of(open_token(), inner);
}

/// The tokens of conditions in parentheses that follow the operator `operator`, each behind it,
/// with whitespace around it.
pub open spec fn following(
    blocks: Seq<Seq<TokenView>>,
    before: TokenView,
    operator: TokenView,
    behind: TokenView,
) -> Seq<TokenView>
    decreases blocks.len(),
{
    if blocks.len() == 0 {
        Seq::empty()
    } else {
        seq![before, operator, behind] + blocks.first() + following(
            blocks.drop_first(),
            before,
            operator,
            behind,
        )
    }
}

/// Whether tokens, behind as many tokens of whitespace as `spaces` tells, end, or go on with
/// something other than a name that is `keyword` in upper or lower case.
pub open spec fn starts_otherwise(tokens: Seq<TokenView>, spaces: int, keyword: Seq<char>) -> bool {
    &&& 0 <= spaces <= tokens.len()
    &&& is_space(tokens.take(spaces))
    &&& spaces < tokens.len() ==> !(tokens[spaces].kind is Space) && !(
    tokens[spaces].kind matches KindView::Ident(name) && ascii_lower(name) == ascii_lower(keyword))
}

/// Where the tokens behind a place start.
proof fn lemma_start(
    tokens: Seq<TokenView>,
    at: int,
    rest: Seq<TokenView>,
    spaces: int,
)
    requires
        stands_at(tokens, at, rest),
        at + rest.len() == tokens.len(),
        0 <= spaces <= rest.len(),
        is_space(rest.take(spaces)),
        spaces < rest.len() ==> !(rest[spaces].kind is Space),
    ensures
        skip_space(tokens, at, tokens.len() as int) == at + spaces,
        spaces < rest.len() ==> tokens[at + spaces] == rest[spaces],
{
    let front = rest.take(spaces);
    assert forall|k: int| 0 <= k < front.len() implies #[trigger] front[k] == tokens[k + at] by {
        assert(rest[k] == tokens[k + at]);
    }
    lemma_pass(tokens, at, tokens.len() as int, front);
    if spaces < rest.len() {
        assert(rest[spaces] == tokens[spaces + at]);
    }
}

/// A block is read as its condition, where neither `and` nor `or` follows. What follows is not
/// read.
pub proof fn law_block_is_read(
    block: Seq<TokenView>,
    c: ConditionView,
    rest: Seq<TokenView>,
    spaces: int,
)
    requires
        is_block(block, c),
        starts_otherwise(rest, spaces, "and"@),
        starts_otherwise(rest, spaces, "or"@),
    ensures
        ({
            let tokens = block + rest;
            condition(tokens, 0, tokens.len() as int) == Ok::<(ConditionView, int), ParserErrorView>(
                (c, block.len() as int),
            )
        }),
{
    let tokens = block + rest;
    let n = tokens.len() as int;
    let m = block.len() as int;
    assert(stands_at(tokens, 0, block)) by {
        assert forall|k: int| 0 <= k < block.len() implies #[trigger] block[k] == tokens[k + 0]
        by {}
    }
    assert(stands_at(tokens, m, rest)) by {
        assert forall|k: int| 0 <= k < rest.len() implies #[trigger] rest[k] == tokens[k + m] by {}
    }
    lemma_block_anywhere(tokens, 0, n, block, c);
    lemma_start(tokens, m, rest, spaces);
    assert(block[0] == tokens[0]);
    assert(operator(tokens, m, n) is None);
}

/// Where `and` or `or` follows a block, and then nothing, the condition is that of no conditions,
/// and the operator is not read.
pub proof fn law_operator_without_block(
    block: Seq<TokenView>,
    c: ConditionView,
    spaces: Seq<TokenView>,
    operator: TokenView,
)
    requires
        is_block(block, c),
        is_space(spaces),
        operator.kind is Ident,
    ensures
        ({
            let tokens = block + spaces + seq![operator];
            let n = tokens.len() as int;
            let name = operator.kind->Ident_0;
            &&& ascii_lower(name) == ascii_lower("and"@) ==> condition(tokens, 0, n) == Ok::<
                (ConditionView, int),
                ParserErrorView,
            >((ConditionView::And(Seq::empty()), block.len() as int))
            &&& ascii_lower(name) == ascii_lower("or"@) ==> condition(tokens, 0, n) == Ok::<
                (ConditionView, int),
                ParserErrorView,
            >((ConditionView::Or(Seq::empty()), block.len() as int))
        }),
{
    let tokens = block + spaces + seq![operator];
    let n = tokens.len() as int;
    let m = block.len() as int;
    assert(stands_at(tokens, 0, block)) by {
        assert forall|k: int| 0 <= k < block.len() implies #[trigger] block[k] == tokens[k + 0]
        by {}
    }
    assert(stands_at(tokens, m, spaces)) by {
        assert forall|k: int| 0 <= k < spaces.len() implies #[trigger] spaces[k] == tokens[k + m]
        by {}
    }
    lemma_block_anywhere(tokens, 0, n, block, c);
    lemma_pass(tokens, m, n, spaces);
    assert(tokens[n - 1] == operator);
    assert(skip_space(tokens, n - 1, n) == n - 1);
    assert(block[0] == tokens[0]);
    lemma_keywords();
    assert(skip_space(tokens, n, n) == n);
    assert(in_parens(tokens, n, n) is Err);
}

/// Blocks that all follow `and`, or all follow `or`, in upper or lower case, are read as the
/// conditions that they are read as, joined by it. What follows, unless it is the same operator, is
/// not read.
pub proof fn law_joined_blocks_are_read(
    first: Seq<TokenView>,
    c: ConditionView,
    blocks: Seq<Seq<TokenView>>,
    list: Seq<ConditionView>,
    before: TokenView,
    operator: TokenView,
    behind: TokenView,
    rest: Seq<TokenView>,
    spaces: int,
)
    requires
        is_block(first, c),
        blocks.len() == list.len(),
        blocks.len() > 0,
        forall|k: int| 0 <= k < blocks.len() ==> is_block(#[trigger] blocks[k], list[k]),
        before.kind is Space,
        behind.kind is Space,
        operator.kind matches KindView::Ident(name) && (ascii_lower(name) == ascii_lower("and"@)
            || ascii_lower(name) == ascii_lower("or"@)),
        starts_otherwise(rest, spaces, operator.kind->Ident_0),
    ensures
        ({
            let front = first + following(blocks, before, operator, behind);
            let tokens = front + rest;
            let n = tokens.len() as int;
            let all = seq![c] + list;
            &&& ascii_lower(operator.kind->Ident_0) == ascii_lower("and"@) ==> condition(
                tokens,
                0,
                n,
            ) == Ok::<(ConditionView, int), ParserErrorView>(
                (ConditionView::And(all), front.len() as int),
            )
            &&& ascii_lower(operator.kind->Ident_0) == ascii_lower("or"@) ==> condition(
                tokens,
                0,
                n,
            ) == Ok::<(ConditionView, int), ParserErrorView>(
                (ConditionView::Or(all), front.len() as int),
            )
        }),
{
    let more = following(blocks, before, operator, behind);
    let front = first + more;
    let tokens = front + rest;
    let n = tokens.len() as int;
    let m = first.len() as int;
    let is_and = ascii_lower(operator.kind->Ident_0) == ascii_lower("and"@);
    lemma_keywords();
    assert(!(ascii_lower("or"@) == ascii_lower("and"@)));
    assert(stands_at(tokens, 0, first)) by {
        assert forall|k: int| 0 <= k < first.len() implies #[trigger] first[k] == tokens[k + 0]
        by {}
    }
    assert(stands_at(tokens, m, more)) by {
        assert forall|k: int| 0 <= k < more.len() implies #[trigger] more[k] == tokens[k + m] by {}
    }
    let stop = front.len() as int;
    assert(stands_at(tokens, stop, rest)) by {
        assert forall|k: int| 0 <= k < rest.len() implies #[trigger] rest[k] == tokens[k + stop]
        by {}
    }
    lemma_start(tokens, stop, rest, spaces);
    lemma_block_anywhere(tokens, 0, n, first, c);
    lemma_following(tokens, m, n, blocks, list, before, operator, behind, is_and);
    assert(first[0] == tokens[0]);
    assert(skip_space(tokens, 0, n) == 0);
}

/// The same of the blocks behind the first one.
proof fn lemma_following(
    tokens: Seq<TokenView>,
    at: int,
    end: int,
    blocks: Seq<Seq<TokenView>>,
    list: Seq<ConditionView>,
    before: TokenView,
    op: TokenView,
    behind: TokenView,
    is_and: bool,
)
    requires
        blocks.len() == list.len(),
        forall|k: int| 0 <= k < blocks.len() ==> is_block(#[trigger] blocks[k], list[k]),
        before.kind is Space,
        behind.kind is Space,
        op.kind matches KindView::Ident(name) && (if is_and {
            is_keyword(name, "and"@)
        } else {
            !is_keyword(name, "and"@) && is_keyword(name, "or"@)
        }),
        stands_at(tokens, at, following(blocks, before, op, behind)),
        at + following(blocks, before, op, behind).len() <= end,
        operator(tokens, at + following(blocks, before, op, behind).len(), end) matches Some(
            (found, _),
        ) ==> found != is_and,
    ensures
        joined(tokens, at, end, is_and) == (
            list,
            at + following(blocks, before, op, behind).len(),
        ),
        blocks.len() > 0 ==> operator(tokens, at, end) == Some((is_and, at + 2)),
    decreases blocks.len(),
{
    if blocks.len() > 0 {
        let start = seq![before, op, behind];
        let block = blocks.first();
        let rest = following(blocks.drop_first(), before, op, behind);
        lemma_part(tokens, at, start, block, rest);
        assert(start[0] == tokens[0 + at] && start[1] == tokens[1 + at] && start[2] == tokens[2
            + at]);
        let m = at + 3 + block.len();
        assert(is_block(blocks[0], list[0]));
        lemma_block_anywhere(tokens, at + 3, end, block, list[0]);
        assert forall|k: int| 0 <= k < blocks.drop_first().len() implies is_block(
            #[trigger] blocks.drop_first()[k],
            list.drop_first()[k],
        ) by {
            assert(is_block(blocks[k + 1], list[k + 1]));
        }
        lemma_following(
            tokens,
            m,
            end,
            blocks.drop_first(),
            list.drop_first(),
            before,
            op,
            behind,
            is_and,
        );
        assert(skip_space(tokens, at + 1, end) == at + 1);
        assert(skip_space(tokens, at, end) == at + 1);
        assert(skip_space(tokens, at + 2, end) == at + 3);
        lemma_same_in_parens(tokens, at + 2, at + 3, end);
        assert(operator(tokens, at, end) == Some((is_and, at + 2)));
        assert(seq![list[0]] + list.drop_first() =~= list);
    } else {
        assert(list =~= Seq::empty());
    }
}

/// Parentheses with anything else in them that CSS may hold, neither a condition as a whole nor,
/// where they start with none, a declaration, are read as something unknown.
pub proof fn law_unknown_is_read(inner: Seq<TokenView>)
    requires
        balanced(inner, 0, inner.len() as int),
        first_error(inner, 0, inner.len() as int, Seq::empty()) is None,
        match condition(inner, 0, inner.len() as int) {
            Ok((_, next)) => skip_space(inner, next, inner.len() as int) < inner.len(),
            Err(_) => declaration(inner, 0, inner.len() as int) is Err,
        },
    ensures
        is_block(
            enclosed(open_token(), inner),
            ConditionView::Unknown("("@ + text_of(inner) + ")"@),
        ),
{
    lemma_block_of(open_token(), inner);
}

/// A function with something in it that no CSS may hold is no condition: what it may not hold is
/// reported, and what stands behind the function is left.
pub proof fn law_bad_function_is_reported(
    before: Seq<TokenView>,
    open: TokenView,
    inner: Seq<TokenView>,
    rest: Seq<TokenView>,
    bad: int,
)
    requires
        is_space(before),
        open.kind is Function,
        balanced(inner, 0, inner.len() as int),
        first_error(inner, 0, inner.len() as int, Seq::empty()) == Some(bad),
    ensures
        ({
            let tokens = before + enclosed(open, inner) + rest;
            let n = tokens.len() as int;
            &&& condition(tokens, 0, n) == Err::<(ConditionView, int), ParserErrorView>(
                ParserErrorView::UnexpectedToken(inner[bad].text),
            )
            &&& condition_stop(tokens, 0, n) == before.len() + inner.len() + 2
        }),
{
    let block = enclosed(open, inner);
    let tokens = before + block + rest;
    let n = tokens.len() as int;
    let p = before.len() as int;
    let m = inner.len() as int;
    lemma_block_of(open, inner);
    assert(stands_at(tokens, 0, before)) by {
        assert forall|k: int| 0 <= k < before.len() implies #[trigger] before[k] == tokens[k
            + 0] by {}
    }
    assert(stands_at(tokens, p, block)) by {
        assert forall|k: int| 0 <= k < block.len() implies #[trigger] block[k] == tokens[k + p]
        by {}
    }
    lemma_pass(tokens, 0, n, before);
    lemma_block(tokens, p, n, block);
    assert(tokens[p] == block[0]);
    assert(skip_space(tokens, p, n) == p);
    assert(moved(inner, tokens, 0, m, p + 1)) by {
        assert forall|k: int| 0 <= k < m implies #[trigger] inner[k] == tokens[k + (p + 1)] by {
            assert(block[k + 1] == inner[k]);
        }
    }
    lemma_moved_error(inner, tokens, 0, m, p + 1, Seq::empty());
    assert(inner[bad] == tokens[bad + (p + 1)]);
}

/// Where the brackets that are open stay open, no block ends.
proof fn lemma_unclosed(tokens: Seq<TokenView>, i: int, end: int, open: Seq<Bracket>)
    requires
        stack_after(tokens, i, end, open) is Some,
        i <= end,
    ensures
        block_end(tokens, i, end, open) == end,
    decreases end - i,
{
    if i < end {
        if open.len() > 0 && tokens[i].kind == KindView::Close(open.last()) {
            lemma_unclosed(tokens, i + 1, end, open.drop_last());
        } else if let Some(bracket) = tokens[i].kind.opens() {
            lemma_unclosed(tokens, i + 1, end, open.push(bracket));
        } else {
            lemma_unclosed(tokens, i + 1, end, open);
        }
    }
}

/// A parenthesis that is not closed is closed by the end of the tokens: a declaration, a selector
/// and a condition in it are read as if it were.
pub proof fn law_end_closes_parenthesis(open: TokenView, inner: Seq<TokenView>, c: ConditionView)
    requires
        open.kind.opens() == Some(Bracket::Paren),
        balanced(inner, 0, inner.len() as int),
        is_block(enclosed(open, inner), c),
        !(c is Unknown),
    ensures
        ({
            let tokens = seq![open] + inner;
            let n = tokens.len() as int;
            condition(tokens, 0, n) == Ok::<(ConditionView, int), ParserErrorView>((c, n))
        }),
{
    let tokens = seq![open] + inner;
    let n = tokens.len() as int;
    let m = inner.len() as int;
    lemma_block_of(open, inner);
    assert(moved(inner, tokens, 0, m, 1)) by {
        assert forall|k: int| 0 <= k < m implies #[trigger] inner[k] == tokens[k + 1] by {}
    }
    lemma_moved_block(inner, tokens, 0, m, 1, seq![Bracket::Paren]);
    lemma_unclosed(tokens, 1, n, seq![Bracket::Paren]);
    lemma_moved_group(inner, tokens, 0, m, 1);
    lemma_moved_error(inner, tokens, 0, m, 1, Seq::empty());
    lemma_moved_text(inner, tokens, 0, m, 1);
    assert(tokens[0] == open);
    assert(skip_space(tokens, 0, n) == 0);
    assert(in_parens(tokens, 0, n) == Ok::<(ConditionView, int), ParserErrorView>((c, n)));
    assert(skip_space(tokens, n, n) == n);
    assert(operator(tokens, n, n) is None);
}

/// Tokens that are all whitespace hold no condition and no declaration, since they end too early.
pub proof fn law_nothing_is_read(tokens: Seq<TokenView>)
    requires
        is_space(tokens),
    ensures
        condition(tokens, 0, tokens.len() as int) == Err::<(ConditionView, int), ParserErrorView>(
            ParserErrorView::EndOfInput,
        ),
        declaration(tokens, 0, tokens.len() as int) == Err::<ConditionView, ParserErrorView>(
            ParserErrorView::EndOfInput,
        ),
        condition_stop(tokens, 0, tokens.len() as int) == tokens.len(),
        declaration_stop(tokens, 0, tokens.len() as int) == tokens.len(),
{
    let n = tokens.len() as int;
    assert(stands_at(tokens, 0, tokens));
    lemma_pass(tokens, 0, n, tokens);
    assert(skip_space(tokens, n, n) == n);
}

/// A token that neither opens a parenthesis nor is `not` starts no condition: it is reported, and
/// what stands behind it, and behind the block that it opens, is left.
pub proof fn law_token_starts_no_condition(
    before: Seq<TokenView>,
    token: TokenView,
    rest: Seq<TokenView>,
)
    requires
        is_space(before),
        !(token.kind is Space),
        token.kind.opens() != Some(Bracket::Paren),
        !(token.kind matches KindView::Ident(name) && ascii_lower(name) == ascii_lower("not"@)),
    ensures
        ({
            let tokens = before + seq![token] + rest;
            let n = tokens.len() as int;
            &&& condition(tokens, 0, n) == Err::<(ConditionView, int), ParserErrorView>(
                ParserErrorView::UnexpectedToken(token.text),
            )
            &&& token.kind.opens() is None ==> condition_stop(tokens, 0, n) == before.len() + 1
        }),
{
    let tokens = before + seq![token] + rest;
    let n = tokens.len() as int;
    let p = before.len() as int;
    assert(stands_at(tokens, 0, before)) by {
        assert forall|k: int| 0 <= k < before.len() implies #[trigger] before[k] == tokens[k
            + 0] by {}
    }
    lemma_pass(tokens, 0, n, before);
    assert(tokens[p] == token);
    assert(skip_space(tokens, p, n) == p);
}

/// Where something other than a name and a colon stands at the start, or something that no CSS may
/// hold behind them, there is no declaration: the token is reported, and what stands behind it is
/// left.
pub proof fn law_token_ends_declaration(tokens: Seq<TokenView>, name: int, colon: int, bad: int)
    requires
        0 <= name < tokens.len(),
        is_space(tokens.take(name)),
        !(tokens[name].kind is Space),
        name < colon < tokens.len(),
        is_space(tokens.subrange(name + 1, colon)),
        !(tokens[colon].kind is Space),
    ensures
        ({
            let n = tokens.len() as int;
            let r = declaration(tokens, 0, n);
            let stop = declaration_stop(tokens, 0, n);
            &&& !(tokens[name].kind is Ident) ==> {
                &&& r == Err::<ConditionView, ParserErrorView>(
                    ParserErrorView::UnexpectedToken(tokens[name].text),
                )
                &&& tokens[name].kind.opens() is None ==> stop == name + 1
            }
            &&& tokens[name].kind is Ident && !(tokens[colon].kind is Colon) ==> {
                &&& r == Err::<ConditionView, ParserErrorView>(
                    ParserErrorView::UnexpectedToken(tokens[colon].text),
                )
                &&& tokens[colon].kind.opens() is None ==> stop == colon + 1
            }
            &&& tokens[name].kind is Ident && tokens[colon].kind is Colon && first_error(
                tokens,
                colon + 1,
                n,
                Seq::empty(),
            ) == Some(bad) ==> {
                &&& r == Err::<ConditionView, ParserErrorView>(
                    ParserErrorView::UnexpectedToken(tokens[bad].text),
                )
                &&& bad < stop <= n
            }
            &&& tokens[name].kind is Ident && tokens[colon].kind is Colon && first_error(
                tokens,
                colon + 1,
                n,
                Seq::empty(),
            ) is None ==> r == Ok::<ConditionView, ParserErrorView>(
                ConditionView::Declaration(text_of(tokens)),
            )
        }),
{
    let n = tokens.len() as int;
    let a = tokens.take(name);
    let b = tokens.subrange(name + 1, colon);
    assert(stands_at(tokens, 0, a)) by {
        assert forall|k: int| 0 <= k < a.len() implies #[trigger] a[k] == tokens[k + 0] by {}
    }
    assert(stands_at(tokens, name + 1, b)) by {
        assert forall|k: int| 0 <= k < b.len() implies #[trigger] b[k] == tokens[k + (name + 1)]
        by {}
    }
    lemma_pass(tokens, 0, n, a);
    lemma_pass(tokens, name + 1, n, b);
    assert(skip_space(tokens, name, n) == name);
    assert(skip_space(tokens, colon, n) == colon);
    if first_error(tokens, colon + 1, n, Seq::empty()) == Some(bad) {
        assert(moved(tokens, tokens, colon + 1, n, 0));
        lemma_moved_error(tokens, tokens, colon + 1, n, 0, Seq::empty());
        lemma_behind_place(tokens, colon + 1, n, bad);
    }
}

/// The token or block that holds a place ends behind it.
proof fn lemma_behind_place(tokens: Seq<TokenView>, i: int, end: int, e: int)
    requires
        i <= e < end,
    ensures
        e < behind_place(tokens, i, end, e) <= end,
    decreases end - i,
{
    if let Some(bracket) = tokens[i].kind.opens() {
        lemma_block_end(tokens, i + 1, end, seq![bracket]);
    }
    let next = behind_item(tokens, i, end);
    if next <= e {
        lemma_behind_place(tokens, next, end, e);
    }
}

/// What is the first token that no CSS may hold: a malformed string or URL, or a closing bracket
/// that does not close the last bracket that is open.
pub proof fn law_first_error(
    tokens: Seq<TokenView>,
    i: int,
    end: int,
    open: Seq<Bracket>,
    bracket: Bracket,
)
    requires
        i < end,
    ensures
        tokens[i].kind is Bad ==> first_error(tokens, i, end, open) == Some(i),
        tokens[i].kind == KindView::Close(bracket) && (open.len() == 0 || open.last() != bracket)
            ==> first_error(tokens, i, end, open) == Some(i),
        tokens[i].kind == KindView::Close(bracket) && open.len() > 0 && open.last() == bracket
            ==> first_error(tokens, i, end, open) == first_error(
            tokens,
            i + 1,
            end,
            open.drop_last(),
        ),
        tokens[i].kind.opens() == Some(bracket) ==> first_error(tokens, i, end, open)
            == first_error(tokens, i + 1, end, open.push(bracket)),
        !(tokens[i].kind is Bad || tokens[i].kind is Close) && tokens[i].kind.opens() is None
            ==> first_error(tokens, i, end, open) == first_error(tokens, i + 1, end, open),
        first_error(tokens, end, end, open) is None,
{
}

/// What tokens are to conditions: names keep their names, each closing bracket closes what the
/// opening one of its kind opens, a comment is whitespace, and malformed tokens are bad.
pub proof fn law_kinds(raw: RawView)
    ensures
        raw matches RawView::Ident(name) ==> kind_of(raw) == KindView::Ident(name),
        raw matches RawView::Function(name) ==> kind_of(raw) == KindView::Function(name)
            && kind_of(raw).opens() == Some(Bracket::Paren),
        kind_of(RawView::OpenParen).opens() == Some(Bracket::Paren),
        kind_of(RawView::OpenSquare).opens() == Some(Bracket::Square),
        kind_of(RawView::OpenCurly).opens() == Some(Bracket::Curly),
        kind_of(RawView::CloseParen) == KindView::Close(Bracket::Paren),
        kind_of(RawView::CloseSquare) == KindView::Close(Bracket::Square),
        kind_of(RawView::CloseCurly) == KindView::Close(Bracket::Curly),
        kind_of(raw) is Space <==> raw is WhiteSpace || raw is Comment,
        kind_of(raw) is Bad <==> raw is BadUrl || raw is BadString,
        kind_of(raw) is Colon <==> raw is Colon,
        kind_of(raw) is Ident <==> raw is Ident,
        kind_of(raw) is Function <==> raw is Function,
        kind_of(raw) is Other <==> raw is Other,
{
}

/// Whether a condition can be written: each of its declarations, selectors and unknown conditions
/// by the tokens that `leaf` tells, `not` before a condition in parentheses, and `and` and `or`
/// between such conditions.
pub open spec fn writable(c: ConditionView, leaf: spec_fn(ConditionView) -> Seq<TokenView>) -> bool
    decreases c, 1int,
{
    match c {
        ConditionView::Not(inner) => block_writable(*inner, leaf),
        ConditionView::And(list) => list.len() >= 2 && all_writable(list, leaf),
        ConditionView::Or(list) => list.len() >= 2 && all_writable(list, leaf),
        _ => block_writable(c, leaf),
    }
}

/// Whether a condition can be written as a block in parentheses.
pub open spec fn block_writable(
    c: ConditionView,
    leaf: spec_fn(ConditionView) -> Seq<TokenView>,
) -> bool
    decreases c, 0int,
{
    match c {
        ConditionView::Parens(inner) => writable(*inner, leaf),
        ConditionView::Declaration(text) => is_block(leaf(c), c) && text_of(leaf(c)) == "("@ + text
            + ")"@,
        ConditionView::Selector(text) => is_block(leaf(c), c) && text_of(leaf(c)) == "selector("@
            + text + ")"@,
        ConditionView::Unknown(text) => is_block(leaf(c), c) && text_of(leaf(c)) == text,
        _ => false,
    }
}

/// Whether each condition of a list can be written as a block in parentheses.
pub open spec fn all_writable(
    list: Seq<ConditionView>,
    leaf: spec_fn(ConditionView) -> Seq<TokenView>,
) -> bool
    decreases list, 0int,
{
    list.len() > 0 ==> block_writable(list.first(), leaf) && all_writable(list.drop_first(), leaf)
}

/// The tokens that write a condition.
pub open spec fn written(
    c: ConditionView,
    leaf: spec_fn(ConditionView) -> Seq<TokenView>,
) -> Seq<TokenView>
    decreases c, 1int,
{
    match c {
        ConditionView::Not(inner) => seq![word("not"@), space_token()] + block_written(
            *inner,
            leaf,
        ),
        ConditionView::And(list) => if list.len() == 0 {
            Seq::empty()
        } else {
            block_written(list.first(), leaf) + tail_written(list.drop_first(), word("and"@), leaf)
        },
        ConditionView::Or(list) => if list.len() == 0 {
            Seq::empty()
        } else {
            block_written(list.first(), leaf) + tail_written(list.drop_first(), word("or"@), leaf)
        },
        _ => block_written(c, leaf),
    }
}

/// The tokens that write a condition as a block in parentheses.
pub open spec fn block_written(
    c: ConditionView,
    leaf: spec_fn(ConditionView) -> Seq<TokenView>,
) -> Seq<TokenView>
    decreases c, 0int,
{
    match c {
        ConditionView::Parens(inner) => enclosed(open_token(), written(*inner, leaf)),
        _ => leaf(c),
    }
}

/// The tokens that write conditions behind an operator.
pub open spec fn tail_written(
    list: Seq<ConditionView>,
    operator: TokenView,
    leaf: spec_fn(ConditionView) -> Seq<TokenView>,
) -> Seq<TokenView>
    decreases list, 0int,
{
    if list.len() == 0 {
        Seq::empty()
    } else {
        seq![space_token(), operator, space_token()] + block_written(list.first(), leaf)
            + tail_written(list.drop_first(), operator, leaf)
    }
}

/// What is printed of a condition that can be written is the text of the tokens that write it, and
/// these are read as that condition.
pub proof fn law_printed_condition_is_read(
    c: ConditionView,
    leaf: spec_fn(ConditionView) -> Seq<TokenView>,
)
    requires
        writable(c, leaf),
    ensures
        ({
            let tokens = written(c, leaf);
            let n = tokens.len() as int;
            &&& text_of(tokens) == condition_css(c)
            &&& balanced(tokens, 0, n)
            &&& condition(tokens, 0, n) == Ok::<(ConditionView, int), ParserErrorView>((c, n))
        }),
    decreases c, 1int,
{
    let tokens = written(c, leaf);
    let n = tokens.len() as int;
    match c {
        ConditionView::Not(inner) => {
            let block = block_written(*inner, leaf);
            let start = seq![word("not"@), space_token()];
            lemma_block_written(*inner, leaf);
            law_not_is_read(
                Seq::empty(),
                word("not"@),
                seq![space_token()],
                block,
                *inner,
            );
            assert(Seq::<TokenView>::empty() + seq![word("not"@)] + seq![space_token()] + block
                =~= tokens);
            lemma_one_token(word("not"@));
            lemma_one_token(space_token());
            assert(start =~= seq![word("not"@)] + seq![space_token()]);
            lemma_joined_lists(seq![word("not"@)], seq![space_token()]);
            lemma_joined_lists(start, block);
            reveal_strlit("not");
            reveal_strlit(" ");
            reveal_strlit("not ");
            assert("not"@ + " "@ =~= "not "@);
        },
        ConditionView::And(list) => {
            lemma_joined_written(list, true, leaf);
        },
        ConditionView::Or(list) => {
            lemma_joined_written(list, false, leaf);
        },
        _ => {
            lemma_block_written(c, leaf);
            assert(stands_at(tokens, 0, tokens));
            lemma_block_anywhere(tokens, 0, n, tokens, c);
            assert(tokens[0].kind.opens() is Some);
            assert(skip_space(tokens, n, n) == n);
            assert(operator(tokens, n, n) is None);
        },
    }
}

/// The same of a condition as a block in parentheses.
proof fn lemma_block_written(c: ConditionView, leaf: spec_fn(ConditionView) -> Seq<TokenView>)
    requires
        block_writable(c, leaf),
    ensures
        is_block(block_written(c, leaf), c),
        text_of(block_written(c, leaf)) == condition_css(c),
        balanced(block_written(c, leaf), 0, block_written(c, leaf).len() as int),
    decreases c, 0int,
{
    let block = block_written(c, leaf);
    match c {
        ConditionView::Parens(inner) => {
            let tokens = written(*inner, leaf);
            law_printed_condition_is_read(*inner, leaf);
            assert(skip_space(tokens, tokens.len() as int, tokens.len() as int) >= tokens.len());
            law_parentheses_are_read(tokens, *inner);
            lemma_enclosed(open_token(), tokens);
        },
        _ => {},
    }
    assert(stands_at(block, 0, block));
    lemma_block_anywhere(block, 0, block.len() as int, block, c);
}

/// The blocks of a list of conditions.
spec fn blocks_written(
    list: Seq<ConditionView>,
    leaf: spec_fn(ConditionView) -> Seq<TokenView>,
) -> Seq<Seq<TokenView>> {
    list.map_values(|c: ConditionView| block_written(c, leaf))
}

/// The same of joined conditions.
proof fn lemma_joined_written(
    list: Seq<ConditionView>,
    is_and: bool,
    leaf: spec_fn(ConditionView) -> Seq<TokenView>,
)
    requires
        list.len() >= 2,
        all_writable(list, leaf),
    ensures
        ({
            let tokens = block_written(list.first(), leaf) + tail_written(
                list.drop_first(),
                operator_token(is_and),
                leaf,
            );
            let n = tokens.len() as int;
            let c = if is_and {
                ConditionView::And(list)
            } else {
                ConditionView::Or(list)
            };
            &&& text_of(tokens) == joined_css(list, if is_and { " and "@ } else { " or "@ })
            &&& balanced(tokens, 0, n)
            &&& condition(tokens, 0, n) == Ok::<(ConditionView, int), ParserErrorView>((c, n))
        }),
    decreases list, 1int,
{
    let separator = if is_and { " and "@ } else { " or "@ };
    let op = operator_token(is_and);
    let rest = list.drop_first();
    let first = block_written(list.first(), leaf);
    let tail = tail_written(rest, op, leaf);
    lemma_block_written(list.first(), leaf);
    lemma_tail_written(rest, is_and, leaf);
    lemma_keywords();
    law_joined_blocks_are_read(
        first,
        list.first(),
        blocks_written(rest, leaf),
        rest,
        space_token(),
        op,
        space_token(),
        Seq::empty(),
        0,
    );
    assert(first + tail + Seq::<TokenView>::empty() =~= first + tail);
    assert(seq![list.first()] + rest =~= list);
    lemma_joined_lists(first, tail);
    lemma_joined_css(list.first(), rest, separator);
    assert(ascii_lower("or"@) != ascii_lower("and"@));
}

/// The same of the conditions behind the first one.
proof fn lemma_tail_written(
    list: Seq<ConditionView>,
    is_and: bool,
    leaf: spec_fn(ConditionView) -> Seq<TokenView>,
)
    requires
        all_writable(list, leaf),
    ensures
        ({
            let op = operator_token(is_and);
            let tail = tail_written(list, op, leaf);
            let blocks = blocks_written(list, leaf);
            &&& tail == following(blocks, space_token(), op, space_token())
            &&& text_of(tail) == tail_css(list, if is_and { " and "@ } else { " or "@ })
            &&& balanced(tail, 0, tail.len() as int)
            &&& forall|k: int| 0 <= k < list.len() ==> is_block(#[trigger] blocks[k], list[k])
        }),
    decreases list, 0int,
{
    let op = operator_token(is_and);
    let tail = tail_written(list, op, leaf);
    let blocks = blocks_written(list, leaf);
    let separator = if is_and { " and "@ } else { " or "@ };
    if list.len() > 0 {
        let first = list.first();
        let rest = list.drop_first();
        let block = block_written(first, leaf);
        let start = seq![space_token(), op, space_token()];
        let more = tail_written(rest, op, leaf);
        lemma_block_written(first, leaf);
        lemma_tail_written(rest, is_and, leaf);
        assert(blocks.first() == block);
        assert(blocks.drop_first() =~= blocks_written(rest, leaf));
        lemma_one_token(space_token());
        lemma_one_token(op);
        assert(start =~= seq![space_token()] + seq![op] + seq![space_token()]);
        lemma_joined_lists(seq![space_token()], seq![op]);
        lemma_joined_lists(seq![space_token()] + seq![op], seq![space_token()]);
        lemma_joined_lists(start, block);
        lemma_joined_lists(start + block, more);
        lemma_tail(first, rest, separator);
        assert(seq![first] + rest =~= list);
        lemma_keywords();
        assert(" "@ + op.text + " "@ =~= separator);
        assert forall|k: int| 0 <= k < list.len() implies is_block(#[trigger] blocks[k], list[k]) by {
            if k > 0 {
                assert(blocks_written(rest, leaf)[k - 1] == blocks[k]);
                assert(rest[k - 1] == list[k]);
            }
        }
    } else {
        assert(text_of(tail) =~= Seq::empty());
        assert(stack_after(tail, 0, 0, seq![Bracket::Paren]) == Some(seq![Bracket::Paren]));
    }
}

/// Joined conditions can be written where the conditions can: two blocks in parentheses become one
/// such block, and a list of them, joined by the same operator, becomes a longer one.
pub proof fn law_joined_conditions_can_be_written(
    a: ConditionView,
    b: ConditionView,
    leaf: spec_fn(ConditionView) -> Seq<TokenView>,
)
    requires
        block_writable(b, leaf),
    ensures
        block_writable(a, leaf) ==> block_writable(conjoined(a, b), leaf) && block_writable(
            disjoined(a, b),
            leaf,
        ),
        a is And && writable(a, leaf) ==> writable(conjoined(a, b), leaf),
        a is Or && writable(a, leaf) ==> writable(disjoined(a, b), leaf),
{
    let pair = seq![a, b];
    if block_writable(a, leaf) {
        assert(pair.drop_first() =~= seq![b]);
        assert(seq![b].drop_first() =~= Seq::empty());
        assert(all_writable(Seq::<ConditionView>::empty(), leaf));
        assert(all_writable(seq![b], leaf));
        assert(all_writable(pair, leaf));
        assert(writable(ConditionView::And(pair), leaf));
        assert(writable(ConditionView::Or(pair), leaf));
    }
    match a {
        ConditionView::And(list) => {
            if writable(a, leaf) {
                lemma_all_writable(list, b, leaf);
                assert(writable(ConditionView::And(list.push(b)), leaf));
            }
        },
        ConditionView::Or(list) => {
            if writable(a, leaf) {
                lemma_all_writable(list, b, leaf);
                assert(writable(ConditionView::Or(list.push(b)), leaf));
            }
        },
        _ => {},
    }
}

/// A list with one more condition.
proof fn lemma_all_writable(
    list: Seq<ConditionView>,
    b: ConditionView,
    leaf: spec_fn(ConditionView) -> Seq<TokenView>,
)
    requires
        all_writable(list, leaf),
        block_writable(b, leaf),
    ensures
        all_writable(list.push(b), leaf),
    decreases list.len(),
{
    let all = list.push(b);
    if list.len() > 0 {
        assert(all.drop_first() =~= list.drop_first().push(b));
        lemma_all_writable(list.drop_first(), b, leaf);
    } else {
        assert(all.drop_first() =~= Seq::empty());
        assert(all_writable(all.drop_first(), leaf));
    }
}

/// The text of an `@supports` rule whose condition can be written is `@supports `, followed, up to
/// the brace, by the text of tokens that are read as that condition.
pub proof fn law_supports_rule_is_read(
    c: ConditionView,
    leaf: spec_fn(ConditionView) -> Seq<TokenView>,
    rules: Seq<RuleView>,
    loc: Location,
    p: PrinterView,
)
    requires
        writable(c, leaf),
    ensures
        ({
            let tokens = written(c, leaf);
            let n = tokens.len() as int;
            let rule = RuleView::Supports { condition: c, rules, loc };
            &&& (p.text + "@supports "@ + text_of(tokens) + gap(p.minify) + "{"@).is_prefix_of(
                rule_css(rule, p).text,
            )
            &&& condition(tokens, 0, n) == Ok::<(ConditionView, int), ParserErrorView>((c, n))
        }),
{
    law_printed_condition_is_read(c, leaf);
    law_supports_rule_text(c, rules, loc, p);
    let text = condition_css(c);
    assert(p.text + ("@supports "@ + text) + gap(p.minify) + "{"@ =~= p.text + "@supports "@ + text
        + gap(p.minify) + "{"@);
}

} // verus!
