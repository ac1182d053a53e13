//! The grammar of `@supports` conditions.
use crate::error::{ParserError, ParserErrorView};
use crate::supports::{condition_views, lemma_condition_views, ConditionView, SupportsCondition};
use crate::token::{
    token_text, token_views, Bracket, KindView, Token, TokenKind, TokenStream, TokenView,
};
use vstd::prelude::*;
use vstd::string::*;

verus! {

/// A letter `A` to `Z` in lower case, and any other character as it is.
pub open spec fn lower_char(c: char) -> char {
    if 'A' <= c <= 'Z' {
        (c as u32 + 32) as char
    } else {
        c
    }
}

/// A text with its letters `A` to `Z` in lower case.
pub open spec fn ascii_lower(text: Seq<char>) -> Seq<char> {
    text.map_values(|c: char| lower_char(c))
}

/// `str::eq_ignore_ascii_case` compares two texts, taking the letters `A` to `Z` for those in
/// lower case.
pub assume_specification[ str::eq_ignore_ascii_case ](a: &str, b: &str) -> (r: bool)
    ensures
        r == (ascii_lower(a@) == ascii_lower(b@)),
;

/// Whether a name is `keyword` in upper or lower case.
pub open spec fn is_keyword(name: Seq<char>, keyword: Seq<char>) -> bool {
    ascii_lower(name) == ascii_lower(keyword)
}

/// The first place from `i` on, but before `end`, that holds neither whitespace nor a comment,
/// or else `end`.
pub open spec fn skip_space(tokens: Seq<TokenView>, i: int, end: int) -> int
    decreases end - i,
{
    if i < end && tokens[i].kind is Space {
        skip_space(tokens, i + 1, end)
    } else {
        i
    }
}

/// The place of the token that closes the first bracket of `open`, read from `i` on, or `end` if
/// none does. Each bracket is closed by one of its own kind; one of another kind is passed over.
pub open spec fn block_end(tokens: Seq<TokenView>, i: int, end: int, open: Seq<Bracket>) -> int
    decreases end - i,
{
    if i >= end {
        end
    } else if open.len() > 0 && tokens[i].kind == KindView::Close(open.last()) {
        if open.len() == 1 {
            i
        } else {
            block_end(tokens, i + 1, end, open.drop_last())
        }
    } else {
        match tokens[i].kind.opens() {
            Some(bracket) => block_end(tokens, i + 1, end, open.push(bracket)),
            None => block_end(tokens, i + 1, end, open),
        }
    }
}

/// The place of the first token from `i` on, but before `end`, that no CSS may hold: a malformed
/// string or URL, or a closing bracket that closes nothing.
pub open spec fn first_error(
    tokens: Seq<TokenView>,
    i: int,
    end: int,
    open: Seq<Bracket>,
) -> Option<int>
    decreases end - i,
{
    if i >= end {
        None
    } else {
        match tokens[i].kind {
            KindView::Bad => Some(i),
            KindView::Close(bracket) => if open.len() > 0 && open.last() == bracket {
                first_error(tokens, i + 1, end, open.drop_last())
            } else {
                Some(i)
            },
            kind => match kind.opens() {
                Some(bracket) => first_error(tokens, i + 1, end, open.push(bracket)),
                None => first_error(tokens, i + 1, end, open),
            },
        }
    }
}

/// The place behind the token at `i` and, where it opens a block, behind that block.
pub open spec fn behind_item(tokens: Seq<TokenView>, i: int, end: int) -> int {
    match tokens[i].kind.opens() {
        Some(bracket) => behind_block(block_end(tokens, i + 1, end, seq![bracket]), end),
        None => i + 1,
    }
}

/// The place behind the token or block, of those from `i` on, that holds the place `e`.
pub open spec fn behind_place(tokens: Seq<TokenView>, i: int, end: int, e: int) -> int
    decreases end - i,
{
    let next = behind_item(tokens, i, end);
    if i < next <= e && e < end {
        behind_place(tokens, next, end, e)
    } else {
        next
    }
}

/// The place up to which the tokens from `i` on are read before it is found that they start with
/// no condition in parentheses: behind the first token, and the block that it opens.
pub open spec fn in_parens_stop(tokens: Seq<TokenView>, i: int, end: int) -> int {
    let p = skip_space(tokens, i, end);
    if p >= end {
        end
    } else {
        behind_item(tokens, p, end)
    }
}

/// The place up to which the tokens from `i` on are read before it is found that they start with
/// no condition.
pub open spec fn condition_stop(tokens: Seq<TokenView>, i: int, end: int) -> int {
    let p = skip_space(tokens, i, end);
    if i <= p < end && (tokens[p].kind matches KindView::Ident(name) && is_keyword(name, "not"@)) {
        in_parens_stop(tokens, p + 1, end)
    } else {
        in_parens_stop(tokens, i, end)
    }
}

/// The place up to which the tokens from `i` up to `end` are read before it is found that they
/// are no declaration.
pub open spec fn declaration_stop(tokens: Seq<TokenView>, i: int, end: int) -> int {
    let name = skip_space(tokens, i, end);
    let colon = skip_space(tokens, name + 1, end);
    if name >= end {
        end
    } else if !(tokens[name].kind is Ident) {
        behind_item(tokens, name, end)
    } else if colon >= end {
        end
    } else if !(tokens[colon].kind is Colon) {
        behind_item(tokens, colon, end)
    } else {
        match first_error(tokens, colon + 1, end, Seq::empty()) {
            Some(e) => behind_place(tokens, colon + 1, end, e),
            None => end,
        }
    }
}

/// The error that the token at `i` is.
pub open spec fn unexpected(tokens: Seq<TokenView>, i: int) -> ParserErrorView {
    ParserErrorView::UnexpectedToken(tokens[i].text)
}

/// `<declaration>`: a name, a colon, and anything up to `end`.
pub open spec fn declaration(tokens: Seq<TokenView>, i: int, end: int) -> Result<
    ConditionView,
    ParserErrorView,
> {
    let name = skip_space(tokens, i, end);
    let colon = skip_space(tokens, name + 1, end);
    if name >= end {
        Err(ParserErrorView::EndOfInput)
    } else if !(tokens[name].kind is Ident) {
        Err(unexpected(tokens, name))
    } else if colon >= end {
        Err(ParserErrorView::EndOfInput)
    } else if !(tokens[colon].kind is Colon) {
        Err(unexpected(tokens, colon))
    } else {
        match first_error(tokens, colon + 1, end, Seq::empty()) {
            Some(e) => Err(unexpected(tokens, e)),
            None => Ok(ConditionView::Declaration(token_text(tokens, i, end))),
        }
    }
}

/// The `and` (`true`) or `or` (`false`) that comes next, and the place behind it.
pub open spec fn operator(tokens: Seq<TokenView>, i: int, end: int) -> Option<(bool, int)> {
    let p = skip_space(tokens, i, end);
    if p < end {
        match tokens[p].kind {
            KindView::Ident(name) => if is_keyword(name, "and"@) {
                Some((true, p + 1))
            } else if is_keyword(name, "or"@) {
                Some((false, p + 1))
            } else {
                None
            },
            _ => None,
        }
    } else {
        None
    }
}

/// The condition that the tokens from `i` on start with, and the place behind it: `not` and a
/// condition in parentheses, or conditions in parentheses joined all by `and` or all by `or`.
///
/// Where an operator follows the first condition and nothing that it could join, the condition
/// is the empty list, and the operator is left unread.
pub open spec fn condition(tokens: Seq<TokenView>, i: int, end: int) -> Result<
    (ConditionView, int),
    ParserErrorView,
>
    decreases end - i, 3int,
{
    let p = skip_space(tokens, i, end);
    proof {
        lemma_skip_space(tokens, i, end);
    }
    if i <= p < end && (tokens[p].kind matches KindView::Ident(name) && is_keyword(name, "not"@)) {
        match in_parens(tokens, p + 1, end) {
            Ok((inner, next)) => Ok((ConditionView::Not(Box::new(inner)), next)),
            Err(e) => Err(e),
        }
    } else {
        match in_parens(tokens, i, end) {
            Err(e) => Err(e),
            Ok((first, next)) => match operator(tokens, next, end) {
                Some((is_and, _)) if i <= next <= end => {
                    let (others, behind) = joined(tokens, next, end, is_and);
                    let all = if others.len() == 0 {
                        Seq::empty()
                    } else {
                        seq![first] + others
                    };
                    Ok((if is_and { ConditionView::And(all) } else { ConditionView::Or(all) }, behind))
                },
                _ => Ok((first, next)),
            },
        }
    }
}

/// The conditions in parentheses that follow, each behind the given operator, and the place
/// behind the last of them.
pub open spec fn joined(tokens: Seq<TokenView>, i: int, end: int, is_and: bool) -> (
    Seq<ConditionView>,
    int,
)
    decreases end - i, 2int,
{
    proof {
        lemma_skip_space(tokens, i, end);
    }
    match operator(tokens, i, end) {
        Some((found, behind)) if found == is_and => match in_parens(tokens, behind, end) {
            Ok((first, next)) if i < next <= end => {
                let (others, last) = joined(tokens, next, end, is_and);
                (seq![first] + others, last)
            },
            _ => (Seq::empty(), i),
        },
        _ => (Seq::empty(), i),
    }
}

/// The place behind a block whose contents end at `close`.
pub open spec fn behind_block(close: int, end: int) -> int {
    if close < end {
        close + 1
    } else {
        end
    }
}

/// A condition in parentheses, `selector( )`, or any other function or block in parentheses, and
/// the place behind it.
pub open spec fn in_parens(tokens: Seq<TokenView>, i: int, end: int) -> Result<
    (ConditionView, int),
    ParserErrorView,
>
    decreases end - i, 1int,
{
    let p = skip_space(tokens, i, end);
    let close = block_end(tokens, p + 1, end, seq![Bracket::Paren]);
    let behind = behind_block(close, end);
    proof {
        lemma_skip_space(tokens, i, end);
        lemma_block_end(tokens, p + 1, end, seq![Bracket::Paren]);
    }
    if p >= end {
        Err(ParserErrorView::EndOfInput)
    } else {
        match tokens[p].kind {
            KindView::Function(name) => match first_error(tokens, p + 1, close, Seq::empty()) {
                Some(e) => Err(unexpected(tokens, e)),
                None => if is_keyword(name, "selector"@) {
                    Ok((ConditionView::Selector(token_text(tokens, p + 1, close)), behind))
                } else {
                    Ok((ConditionView::Unknown(token_text(tokens, p, behind)), behind))
                },
            },
            KindView::Open(Bracket::Paren) => match group(tokens, p + 1, close) {
                Some(c) => Ok((c, behind)),
                None => match first_error(tokens, p + 1, close, Seq::empty()) {
                    Some(e) => Err(unexpected(tokens, e)),
                    None => Ok((ConditionView::Unknown(token_text(tokens, p, behind)), behind)),
                },
            },
            _ => Err(unexpected(tokens, p)),
        }
    }
}

/// What the tokens from `i` up to `close`, between parentheses, are: a condition that takes up
/// all of them or, where they start with no condition, a declaration.
pub open spec fn group(tokens: Seq<TokenView>, i: int, close: int) -> Option<ConditionView>
    decreases close - i, 4int,
{
    match condition(tokens, i, close) {
        Ok((c, next)) => if skip_space(tokens, next, close) >= close {
            Some(ConditionView::Parens(Box::new(c)))
        } else {
            None
        },
        Err(_) => match declaration(tokens, i, close) {
            Ok(c) => Some(c),
            Err(_) => None,
        },
    }
}

/// Passing over whitespace goes forward and stays within the tokens.
pub proof fn lemma_skip_space(tokens: Seq<TokenView>, i: int, end: int)
    ensures
        i <= skip_space(tokens, i, end),
        i <= end ==> skip_space(tokens, i, end) <= end,
    decreases end - i,
{
    if i < end && tokens[i].kind is Space {
        lemma_skip_space(tokens, i + 1, end);
    }
}

/// A block ends within the tokens.
pub proof fn lemma_block_end(tokens: Seq<TokenView>, i: int, end: int, open: Seq<Bracket>)
    ensures
        block_end(tokens, i, end, open) <= end,
        i <= end ==> i <= block_end(tokens, i, end, open),
    decreases end - i,
{
    if i < end {
        lemma_block_end(tokens, i + 1, end, open.drop_last());
        lemma_block_end(tokens, i + 1, end, open);
        if let Some(bracket) = tokens[i].kind.opens() {
            lemma_block_end(tokens, i + 1, end, open.push(bracket));
        }
    }
}

/// Reading goes forward and stays within the tokens.
pub proof fn lemma_progress(tokens: Seq<TokenView>, i: int, end: int)
    requires
        i <= end,
    ensures
        condition(tokens, i, end) matches Ok((_, next)) ==> i < next <= end,
        in_parens(tokens, i, end) matches Ok((_, next)) ==> i < next <= end,
    decreases end - i,
{
    lemma_skip_space(tokens, i, end);
    let p = skip_space(tokens, i, end);
    if p < end {
        lemma_block_end(tokens, p + 1, end, seq![Bracket::Paren]);
        lemma_progress(tokens, p + 1, end);
        if let Ok((_, next)) = in_parens(tokens, i, end) {
            lemma_joined_progress(tokens, next, end, true);
            lemma_joined_progress(tokens, next, end, false);
        }
    }
}

/// Reading joined conditions goes forward and stays within the tokens.
proof fn lemma_joined_progress(tokens: Seq<TokenView>, i: int, end: int, is_and: bool)
    requires
        i <= end,
    ensures
        i <= joined(tokens, i, end, is_and).1 <= end,
    decreases end - i,
{
    if let Some((found, behind)) = operator(tokens, i, end) {
        if let Ok((_, next)) = in_parens(tokens, behind, end) {
            if i < next <= end {
                lemma_joined_progress(tokens, next, end, is_and);
            }
        }
    }
}

/// Passes over whitespace and comments.
fn pass_space(tokens: &Vec<Token>, i: usize, end: usize) -> (r: usize)
    requires
        i <= end <= tokens.len(),
    ensures
        r == skip_space(token_views(tokens@), i as int, end as int),
        i <= r <= end,
{
    let mut p: usize = i;
    while p < end && matches!(tokens[p].kind, TokenKind::Space)
        invariant
            i <= p <= end <= tokens.len(),
            skip_space(token_views(tokens@), i as int, end as int) == skip_space(
                token_views(tokens@),
                p as int,
                end as int,
            ),
        decreases end - p,
    {
        assert(token_views(tokens@)[p as int] == tokens@[p as int]@);
        p = p + 1;
    }
    proof {
        if p < end {
            assert(token_views(tokens@)[p as int] == tokens@[p as int]@);
        }
    }
    p
}

/// Finds the end of a block in brackets of the given kind whose contents start at `i`.
fn find_block_end(tokens: &Vec<Token>, i: usize, end: usize, bracket: Bracket) -> (r: usize)
    requires
        i <= end <= tokens.len(),
    ensures
        r == block_end(token_views(tokens@), i as int, end as int, seq![bracket]),
        i <= r <= end,
{
    let ghost views = token_views(tokens@);
    let ghost start = seq![bracket];
    let mut open: Vec<Bracket> = vec![bracket];
    let mut p: usize = i;
    assert(open@ =~= start);
    while p < end
        invariant
            i <= p <= end <= tokens.len(),
            views == token_views(tokens@),
            start == seq![bracket],
            open.len() > 0,
            block_end(views, i as int, end as int, start) == block_end(
                views,
                p as int,
                end as int,
                open@,
            ),
        decreases end - p,
    {
        assert(views[p as int] == tokens@[p as int]@);
        let ghost before = open@;
        let kind = &tokens[p].kind;
        let last: Bracket = open[open.len() - 1];
        let closes: bool = match kind {
            TokenKind::Close(bracket) => *bracket == last,
            _ => false,
        };
        if closes {
            if open.len() == 1 {
                return p;
            }
            let _ = open.pop();
            assert(open@ =~= before.drop_last());
        } else if let Some(bracket) = kind.opens() {
            open.push(bracket);
        }
        p = p + 1;
    }
    end
}

/// Finds a token that no CSS may hold.
fn find_error(tokens: &Vec<Token>, i: usize, end: usize) -> (r: Option<usize>)
    requires
        i <= end <= tokens.len(),
    ensures
        match r {
            Some(e) => i <= e < end && first_error(
                token_views(tokens@),
                i as int,
                end as int,
                Seq::empty(),
            ) == Some(e as int),
            None => first_error(token_views(tokens@), i as int, end as int, Seq::empty()) is None,
        },
{
    let ghost views = token_views(tokens@);
    let ghost start: Seq<Bracket> = Seq::empty();
    let mut open: Vec<Bracket> = Vec::new();
    let mut p: usize = i;
    while p < end
        invariant
            i <= p <= end <= tokens.len(),
            views == token_views(tokens@),
            start == Seq::<Bracket>::empty(),
            first_error(views, i as int, end as int, start) == first_error(
                views,
                p as int,
                end as int,
                open@,
            ),
        decreases end - p,
    {
        assert(views[p as int] == tokens@[p as int]@);
        let ghost before = open@;
        match &tokens[p].kind {
            TokenKind::Bad => {
                return Some(p);
            },
            TokenKind::Close(bracket) => {
                if open.len() == 0 || open[open.len() - 1] != *bracket {
                    return Some(p);
                }
                let _ = open.pop();
                assert(open@ =~= before.drop_last());
            },
            kind => {
                if let Some(bracket) = kind.opens() {
                    open.push(bracket);
                }
            },
        }
        p = p + 1;
    }
    None
}

/// The text of the tokens from `i` up to `end`.
fn text_between(tokens: &Vec<Token>, i: usize, end: usize) -> (r: String)
    requires
        i <= end <= tokens.len(),
    ensures
        r@ == token_text(token_views(tokens@), i as int, end as int),
{
    let mut text: String = String::new();
    let mut p: usize = i;
    while p < end
        invariant
            i <= p <= end <= tokens.len(),
            text@ == token_text(token_views(tokens@), i as int, p as int),
        decreases end - p,
    {
        assert(token_views(tokens@)[p as int] == tokens@[p as int]@);
        text.append(tokens[p].text.as_str());
        p = p + 1;
    }
    text
}

/// The error that the token at `i` is.
fn unexpected_token(tokens: &Vec<Token>, i: usize) -> (r: ParserError)
    requires
        i < tokens.len(),
    ensures
        r@ == unexpected(token_views(tokens@), i as int),
{
    assert(token_views(tokens@)[i as int] == tokens@[i as int]@);
    ParserError::UnexpectedToken(tokens[i].text.clone())
}

/// What a result stands for.
pub open spec fn parsed(r: Result<SupportsCondition, ParserError>) -> Result<
    ConditionView,
    ParserErrorView,
> {
    match r {
        Ok(c) => Ok(c@),
        Err(e) => Err(e@),
    }
}

/// What a result with a place stands for.
pub open spec fn parsed_at(r: Result<(SupportsCondition, usize), ParserError>) -> Result<
    (ConditionView, int),
    ParserErrorView,
> {
    match r {
        Ok((c, next)) => Ok((c@, next as int)),
        Err(e) => Err(e@),
    }
}

/// Parses a declaration.
fn read_declaration(tokens: &Vec<Token>, i: usize, end: usize) -> (r: Result<
    SupportsCondition,
    ParserError,
>)
    requires
        i <= end <= tokens.len(),
    ensures
        parsed(r) == declaration(token_views(tokens@), i as int, end as int),
{
    let name: usize = pass_space(tokens, i, end);
    if name >= end {
        return Err(ParserError::EndOfInput);
    }
    assert(token_views(tokens@)[name as int] == tokens@[name as int]@);
    if !matches!(tokens[name].kind, TokenKind::Ident(_)) {
        return Err(unexpected_token(tokens, name));
    }
    let colon: usize = pass_space(tokens, name + 1, end);
    if colon >= end {
        return Err(ParserError::EndOfInput);
    }
    assert(token_views(tokens@)[colon as int] == tokens@[colon as int]@);
    if !matches!(tokens[colon].kind, TokenKind::Colon) {
        return Err(unexpected_token(tokens, colon));
    }
    match find_error(tokens, colon + 1, end) {
        Some(e) => Err(unexpected_token(tokens, e)),
        None => Ok(SupportsCondition::Declaration(text_between(tokens, i, end))),
    }
}

/// Reads an `and` or an `or`.
fn read_operator(tokens: &Vec<Token>, i: usize, end: usize) -> (r: Option<(bool, usize)>)
    requires
        i <= end <= tokens.len(),
    ensures
        match r {
            Some((is_and, behind)) => i < behind <= end && operator(
                token_views(tokens@),
                i as int,
                end as int,
            ) == Some((is_and, behind as int)),
            None => operator(token_views(tokens@), i as int, end as int) is None,
        },
{
    let p: usize = pass_space(tokens, i, end);
    if p < end {
        assert(token_views(tokens@)[p as int] == tokens@[p as int]@);
        match &tokens[p].kind {
            TokenKind::Ident(name) => {
                if name.as_str().eq_ignore_ascii_case("and") {
                    Some((true, p + 1))
                } else if name.as_str().eq_ignore_ascii_case("or") {
                    Some((false, p + 1))
                } else {
                    None
                }
            },
            _ => None,
        }
    } else {
        None
    }
}

/// Parses a condition.
fn read_condition(tokens: &Vec<Token>, i: usize, end: usize) -> (r: Result<
    (SupportsCondition, usize),
    ParserError,
>)
    requires
        i <= end <= tokens.len(),
    ensures
        parsed_at(r) == condition(token_views(tokens@), i as int, end as int),
    decreases end - i, 3int,
{
    let ghost views = token_views(tokens@);
    let p: usize = pass_space(tokens, i, end);
    if p < end {
        assert(views[p as int] == tokens@[p as int]@);
        let negated: bool = match &tokens[p].kind {
            TokenKind::Ident(name) => name.as_str().eq_ignore_ascii_case("not"),
            _ => false,
        };
        if negated {
            return match parse_in_parens(tokens, p + 1, end) {
                Ok((inner, next)) => Ok((SupportsCondition::Not(Box::new(inner)), next)),
                Err(e) => Err(e),
            };
        }
    }
    let (first, next): (SupportsCondition, usize) = match parse_in_parens(tokens, i, end) {
        Ok(r) => r,
        Err(e) => {
            return Err(e);
        },
    };
    proof {
        lemma_progress(views, i as int, end as int);
    }
    let is_and: bool = match read_operator(tokens, next, end) {
        Some((is_and, _)) => is_and,
        None => {
            return Ok((first, next));
        },
    };
    let ghost first_view = first@;
    let mut conditions: Vec<SupportsCondition> = vec![first];
    let mut behind: usize = next;
    let mut more: bool = true;
    let ghost goal = joined(views, next as int, end as int, is_and);
    proof {
        reveal_with_fuel(condition_views, 2);
        assert(conditions@.drop_last() =~= Seq::empty());
        assert(condition_views(conditions@) =~= seq![first_view]);
        assert(seq![first_view] + goal.0 =~= condition_views(conditions@) + goal.0);
    }
    while more
        invariant
            i < next <= behind <= end <= tokens.len(),
            views == token_views(tokens@),
            goal == joined(views, next as int, end as int, is_and),
            conditions.len() > 0,
            conditions.len() == 1 <==> behind == next,
            more ==> seq![first_view] + goal.0 == condition_views(conditions@) + joined(
                views,
                behind as int,
                end as int,
                is_and,
            ).0,
            more ==> goal.1 == joined(views, behind as int, end as int, is_and).1,
            !more ==> seq![first_view] + goal.0 == condition_views(conditions@) && goal.1 == behind,
        decreases end - behind, if more { 1int } else { 0int },
    {
        let ghost before = conditions@;
        more = false;
        if let Some((found, operand)) = read_operator(tokens, behind, end) {
            if found == is_and {
                if let Ok((c, after)) = parse_in_parens(tokens, operand, end) {
                    proof {
                        lemma_progress(views, operand as int, end as int);
                        let rest = joined(views, after as int, end as int, is_and).0;
                        assert(condition_views(before) + (seq![c@] + rest) =~= condition_views(
                            before,
                        ).push(c@) + rest);
                    }
                    conditions.push(c);
                    assert(conditions@.drop_last() =~= before);
                    behind = after;
                    more = true;
                }
            }
        }
        proof {
            if !more {
                assert(condition_views(before) + Seq::<ConditionView>::empty() =~= condition_views(
                    before,
                ));
            }
        }
    }
    proof {
        lemma_condition_views(conditions@);
        assert((seq![first_view] + goal.0).len() == 1 + goal.0.len());
    }
    let all: Vec<SupportsCondition> = if conditions.len() == 1 { Vec::new() } else { conditions };
    if is_and {
        Ok((SupportsCondition::And(all), behind))
    } else {
        Ok((SupportsCondition::Or(all), behind))
    }
}

/// Parses a condition in parentheses.
fn parse_in_parens(tokens: &Vec<Token>, i: usize, end: usize) -> (r: Result<
    (SupportsCondition, usize),
    ParserError,
>)
    requires
        i <= end <= tokens.len(),
    ensures
        parsed_at(r) == in_parens(token_views(tokens@), i as int, end as int),
        r matches Ok((_, next)) ==> i < next <= end,
    decreases end - i, 1int,
{
    let p: usize = pass_space(tokens, i, end);
    if p >= end {
        return Err(ParserError::EndOfInput);
    }
    assert(token_views(tokens@)[p as int] == tokens@[p as int]@);
    let close: usize = find_block_end(tokens, p + 1, end, Bracket::Paren);
    let behind: usize = if close < end { close + 1 } else { end };
    match &tokens[p].kind {
        TokenKind::Function(name) => match find_error(tokens, p + 1, close) {
            Some(e) => Err(unexpected_token(tokens, e)),
            None => {
                if name.as_str().eq_ignore_ascii_case("selector") {
                    Ok((SupportsCondition::Selector(text_between(tokens, p + 1, close)), behind))
                } else {
                    Ok((SupportsCondition::Unknown(text_between(tokens, p, behind)), behind))
                }
            },
        },
        TokenKind::Open(Bracket::Paren) => match read_group(tokens, p + 1, close) {
            Some(c) => Ok((c, behind)),
            None => match find_error(tokens, p + 1, close) {
                Some(e) => Err(unexpected_token(tokens, e)),
                None => Ok((SupportsCondition::Unknown(text_between(tokens, p, behind)), behind)),
            },
        },
        _ => Err(unexpected_token(tokens, p)),
    }
}

/// Parses what stands between parentheses.
fn read_group(tokens: &Vec<Token>, i: usize, close: usize) -> (r: Option<SupportsCondition>)
    requires
        i <= close <= tokens.len(),
    ensures
        match r {
            Some(c) => group(token_views(tokens@), i as int, close as int) == Some(c@),
            None => group(token_views(tokens@), i as int, close as int) is None,
        },
    decreases close - i, 4int,
{
    match read_condition(tokens, i, close) {
        Ok((c, next)) => {
            proof {
                lemma_progress(token_views(tokens@), i as int, close as int);
            }
            if pass_space(tokens, next, close) >= close {
                Some(SupportsCondition::Parens(Box::new(c)))
            } else {
                None
            }
        },
        Err(_) => match read_declaration(tokens, i, close) {
            Ok(c) => Some(c),
            Err(_) => None,
        },
    }
}

/// The place behind a token and the block that it opens.
fn pass_item(tokens: &Vec<Token>, i: usize, end: usize) -> (r: usize)
    requires
        i < end <= tokens.len(),
    ensures
        r == behind_item(token_views(tokens@), i as int, end as int),
        i < r <= end,
{
    assert(token_views(tokens@)[i as int] == tokens@[i as int]@);
    match tokens[i].kind.opens() {
        Some(bracket) => {
            let close: usize = find_block_end(tokens, i + 1, end, bracket);
            if close < end {
                close + 1
            } else {
                end
            }
        },
        None => i + 1,
    }
}

/// The place behind the token or block that holds the place `e`.
fn pass_place(tokens: &Vec<Token>, i: usize, end: usize, e: usize) -> (r: usize)
    requires
        i <= e < end <= tokens.len(),
    ensures
        r == behind_place(token_views(tokens@), i as int, end as int, e as int),
        r <= end,
{
    let mut next: usize = pass_item(tokens, i, end);
    let ghost views = token_views(tokens@);
    let ghost mut at = i as int;
    while next <= e
        invariant
            views == token_views(tokens@),
            i <= e < end <= tokens.len(),
            i <= at < next <= end,
            next == behind_item(views, at, end as int),
            behind_place(views, i as int, end as int, e as int) == behind_place(
                views,
                at,
                end as int,
                e as int,
            ),
        decreases end - next,
    {
        proof {
            at = next as int;
        }
        next = pass_item(tokens, next, end);
    }
    next
}

/// The place up to which tokens that start with no condition are read.
fn find_condition_stop(tokens: &Vec<Token>, i: usize, end: usize) -> (r: usize)
    requires
        i <= end <= tokens.len(),
    ensures
        r == condition_stop(token_views(tokens@), i as int, end as int),
        r <= end,
{
    let mut p: usize = pass_space(tokens, i, end);
    if p < end {
        assert(token_views(tokens@)[p as int] == tokens@[p as int]@);
        let negated: bool = match &tokens[p].kind {
            TokenKind::Ident(name) => name.as_str().eq_ignore_ascii_case("not"),
            _ => false,
        };
        if negated {
            p = pass_space(tokens, p + 1, end);
        }
    }
    if p < end {
        pass_item(tokens, p, end)
    } else {
        end
    }
}

/// The place up to which tokens that are no declaration are read.
fn find_declaration_stop(tokens: &Vec<Token>, i: usize, end: usize) -> (r: usize)
    requires
        i <= end <= tokens.len(),
    ensures
        r == declaration_stop(token_views(tokens@), i as int, end as int),
        r <= end,
{
    let name: usize = pass_space(tokens, i, end);
    if name >= end {
        return end;
    }
    assert(token_views(tokens@)[name as int] == tokens@[name as int]@);
    if !matches!(tokens[name].kind, TokenKind::Ident(_)) {
        return pass_item(tokens, name, end);
    }
    let colon: usize = pass_space(tokens, name + 1, end);
    if colon >= end {
        return end;
    }
    assert(token_views(tokens@)[colon as int] == tokens@[colon as int]@);
    if !matches!(tokens[colon].kind, TokenKind::Colon) {
        return pass_item(tokens, colon, end);
    }
    match find_error(tokens, colon + 1, end) {
        Some(e) => pass_place(tokens, colon + 1, end, e),
        None => end,
    }
}

impl SupportsCondition {
    /// Parses the condition that comes next in `input`, and moves `input` behind it. Where none
    /// does, `input` is moved behind what could not be read.
    pub fn parse(input: &mut TokenStream) -> (r: Result<SupportsCondition, ParserError>)
        requires
            old(input).wf(),
        ensures
            final(input).wf(),
            final(input).tokens == old(input).tokens,
            ({
                let tokens = token_views(old(input).tokens@);
                match condition(tokens, old(input).position as int, tokens.len() as int) {
                    Ok((c, next)) => parsed(r) == Ok::<ConditionView, ParserErrorView>(c)
                        && final(input).position == next,
                    Err(e) => parsed(r) == Err::<ConditionView, ParserErrorView>(e)
                        && final(input).position == condition_stop(
                        tokens,
                        old(input).position as int,
                        tokens.len() as int,
                    ),
                }
            }),
    {
        let start: usize = input.position;
        let end: usize = input.tokens.len();
        proof {
            lemma_progress(token_views(input.tokens@), start as int, end as int);
        }
        match read_condition(&input.tokens, start, end) {
            Ok((c, next)) => {
                input.position = next;
                Ok(c)
            },
            Err(e) => {
                input.position = find_condition_stop(&input.tokens, start, end);
                Err(e)
            },
        }
    }

    /// Parses the rest of `input` as a declaration, and moves `input` to its end. Where it is
    /// none, `input` is moved behind what could not be read.
    pub fn parse_declaration(input: &mut TokenStream) -> (r: Result<SupportsCondition, ParserError>)
        requires
            old(input).wf(),
        ensures
            final(input).wf(),
            final(input).tokens == old(input).tokens,
            ({
                let tokens = token_views(old(input).tokens@);
                parsed(r) == declaration(
                    tokens,
                    old(input).position as int,
                    tokens.len() as int,
                )
            }),
            final(input).position == (if r is Ok {
                old(input).tokens.len() as int
            } else {
                declaration_stop(
                    token_views(old(input).tokens@),
                    old(input).position as int,
                    old(input).tokens.len() as int,
                )
            }),
    {
        let start: usize = input.position;
        let end: usize = input.tokens.len();
        match read_declaration(&input.tokens, start, end) {
            Ok(c) => {
                input.position = end;
                Ok(c)
            },
            Err(e) => {
                input.position = find_declaration_stop(&input.tokens, start, end);
                Err(e)
            },
        }
    }
}

} // verus!
