//! The condition of an `@supports` rule: its meaning, its serialization, and the
//! operations that join two conditions.
use crate::printer::Printer;
use vstd::prelude::*;

verus! {

/// The condition of an `@supports` rule.
#[derive(Debug)]
pub enum SupportsCondition {
    /// `not` before a condition.
    Not(Box<SupportsCondition>),
    /// Conditions that must all hold.
    And(Vec<SupportsCondition>),
    /// Conditions of which one must hold.
    Or(Vec<SupportsCondition>),
    /// The text of a declaration that must be supported, without its parentheses.
    Declaration(String),
    /// The text of a selector that must be supported, without `selector( )`.
    Selector(String),
    /// A condition in parentheses.
    Parens(Box<SupportsCondition>),
    /// The text of anything else.
    Unknown(String),
}

/// The mathematical form of a [`SupportsCondition`].
pub enum ConditionView {
    Not(Box<ConditionView>),
    And(Seq<ConditionView>),
    Or(Seq<ConditionView>),
    Declaration(Seq<char>),
    Selector(Seq<char>),
    Parens(Box<ConditionView>),
    Unknown(Seq<char>),
}

/// What a condition stands for.
pub open spec fn condition_view(c: SupportsCondition) -> ConditionView
    decreases c,
{
    match c {
        SupportsCondition::Not(inner) => ConditionView::Not(Box::new(condition_view(*inner))),
        SupportsCondition::And(list) => ConditionView::And(condition_views(list@)),
        SupportsCondition::Or(list) => ConditionView::Or(condition_views(list@)),
        SupportsCondition::Declaration(text) => ConditionView::Declaration(text@),
        SupportsCondition::Selector(text) => ConditionView::Selector(text@),
        SupportsCondition::Parens(inner) => ConditionView::Parens(Box::new(condition_view(*inner))),
        SupportsCondition::Unknown(text) => ConditionView::Unknown(text@),
    }
}

/// What each condition of a list stands for.
pub open spec fn condition_views(list: Seq<SupportsCondition>) -> Seq<ConditionView>
    decreases list,
{
    if list.len() == 0 {
        Seq::empty()
    } else {
        condition_views(list.drop_last()).push(condition_view(list.last()))
    }
}

impl View for SupportsCondition {
    type V = ConditionView;

    open spec fn view(&self) -> ConditionView {
        condition_view(*self)
    }
}

/// `condition_views` goes element by element.
pub proof fn lemma_condition_views(list: Seq<SupportsCondition>)
    ensures
        condition_views(list).len() == list.len(),
        forall|i: int| 0 <= i < list.len() ==> #[trigger] condition_views(list)[i] == list[i]@,
    decreases list.len(),
{
    if list.len() > 0 {
        lemma_condition_views(list.drop_last());
    }
}

/// The condition that `a` becomes when `b` is joined to it by `and`.
pub open spec fn conjoined(a: ConditionView, b: ConditionView) -> ConditionView {
    match a {
        ConditionView::And(list) => if list.contains(b) {
            a
        } else {
            ConditionView::And(list.push(b))
        },
        _ => if a == b {
            a
        } else {
            ConditionView::Parens(Box::new(ConditionView::And(seq![a, b])))
        },
    }
}

/// The condition that `a` becomes when `b` is joined to it by `or`.
pub open spec fn disjoined(a: ConditionView, b: ConditionView) -> ConditionView {
    match a {
        ConditionView::Or(list) => if list.contains(b) {
            a
        } else {
            ConditionView::Or(list.push(b))
        },
        _ => if a == b {
            a
        } else {
            ConditionView::Parens(Box::new(ConditionView::Or(seq![a, b])))
        },
    }
}

/// Whether a condition holds in a browser, where `supported` tells which declarations,
/// selectors and unknown conditions the browser takes for true.
pub open spec fn holds(c: ConditionView, supported: spec_fn(ConditionView) -> bool) -> bool
    decreases c,
{
    match c {
        ConditionView::Not(inner) => !holds(*inner, supported),
        ConditionView::And(list) => all_hold(list, supported),
        ConditionView::Or(list) => any_holds(list, supported),
        ConditionView::Parens(inner) => holds(*inner, supported),
        _ => supported(c),
    }
}

/// Whether every condition of a list holds.
pub open spec fn all_hold(list: Seq<ConditionView>, supported: spec_fn(ConditionView) -> bool) -> bool
    decreases list,
{
    list.len() > 0 ==> all_hold(list.drop_last(), supported) && holds(list.last(), supported)
}

/// Whether a condition of a list holds.
pub open spec fn any_holds(list: Seq<ConditionView>, supported: spec_fn(ConditionView) -> bool) -> bool
    decreases list,
{
    list.len() > 0 && (any_holds(list.drop_last(), supported) || holds(list.last(), supported))
}

/// The CSS text of a condition.
pub open spec fn condition_css(c: ConditionView) -> Seq<char>
    decreases c,
{
    match c {
        ConditionView::Not(inner) => "not "@ + condition_css(*inner),
        ConditionView::And(list) => joined_css(list, " and "@),
        ConditionView::Or(list) => joined_css(list, " or "@),
        ConditionView::Parens(inner) => "("@ + condition_css(*inner) + ")"@,
        ConditionView::Declaration(text) => "("@ + text + ")"@,
        ConditionView::Selector(text) => "selector("@ + text + ")"@,
        ConditionView::Unknown(text) => text,
    }
}

/// The CSS text of the conditions of a list, with `separator` between each two.
pub open spec fn joined_css(list: Seq<ConditionView>, separator: Seq<char>) -> Seq<char>
    decreases list,
{
    if list.len() == 0 {
        Seq::empty()
    } else if list.len() == 1 {
        condition_css(list.last())
    } else {
        joined_css(list.drop_last(), separator) + separator + condition_css(list.last())
    }
}

impl SupportsCondition {
    /// Whether two conditions are the same.
    fn same(&self, other: &SupportsCondition) -> (r: bool)
        ensures
            r == (self@ == other@),
        decreases self,
    {
        match self {
            SupportsCondition::Not(a) => match other {
                SupportsCondition::Not(b) => a.same(b),
                _ => false,
            },
            SupportsCondition::And(a) => match other {
                SupportsCondition::And(b) => Self::same_list(a, b),
                _ => false,
            },
            SupportsCondition::Or(a) => match other {
                SupportsCondition::Or(b) => Self::same_list(a, b),
                _ => false,
            },
            SupportsCondition::Declaration(a) => match other {
                SupportsCondition::Declaration(b) => *a == *b,
                _ => false,
            },
            SupportsCondition::Selector(a) => match other {
                SupportsCondition::Selector(b) => *a == *b,
                _ => false,
            },
            SupportsCondition::Parens(a) => match other {
                SupportsCondition::Parens(b) => a.same(b),
                _ => false,
            },
            SupportsCondition::Unknown(a) => match other {
                SupportsCondition::Unknown(b) => *a == *b,
                _ => false,
            },
        }
    }

    /// Whether two lists hold the same conditions in the same order.
    fn same_list(a: &Vec<SupportsCondition>, b: &Vec<SupportsCondition>) -> (r: bool)
        ensures
            r == (condition_views(a@) == condition_views(b@)),
        decreases a,
    {
        proof {
            lemma_condition_views(a@);
            lemma_condition_views(b@);
        }
        if a.len() != b.len() {
            return false;
        }
        let mut i: usize = 0;
        while i < a.len()
            invariant
                i <= a.len(),
                a.len() == b.len(),
                condition_views(a@).len() == a.len(),
                condition_views(b@).len() == b.len(),
                forall|k: int| 0 <= k < a.len() ==> #[trigger] condition_views(a@)[k] == a@[k]@,
                forall|k: int| 0 <= k < b.len() ==> #[trigger] condition_views(b@)[k] == b@[k]@,
                forall|k: int| 0 <= k < i ==> a@[k]@ == b@[k]@,
            decreases a.len() - i,
        {
            if !a[i].same(&b[i]) {
                assert(condition_views(a@)[i as int] != condition_views(b@)[i as int]);
                return false;
            }
            i = i + 1;
        }
        assert(condition_views(a@) =~= condition_views(b@));
        true
    }

    /// A copy of a list of conditions.
    fn clone_list(list: &Vec<SupportsCondition>) -> (r: Vec<SupportsCondition>)
        ensures
            condition_views(r@) == condition_views(list@),
        decreases list,
    {
        let mut copy: Vec<SupportsCondition> = Vec::new();
        let mut i: usize = 0;
        while i < list.len()
            invariant
                i <= list.len(),
                copy.len() == i,
                forall|k: int| 0 <= k < i ==> copy@[k]@ == list@[k]@,
            decreases list.len() - i,
        {
            copy.push(list[i].copy());
            i = i + 1;
        }
        proof {
            lemma_condition_views(copy@);
            lemma_condition_views(list@);
            assert(condition_views(copy@) =~= condition_views(list@));
        }
        copy
    }

    /// A copy of the condition.
    fn copy(&self) -> (r: SupportsCondition)
        ensures
            r@ == self@,
        decreases self,
    {
        match self {
            SupportsCondition::Not(inner) => SupportsCondition::Not(Box::new(inner.copy())),
            SupportsCondition::And(list) => SupportsCondition::And(Self::clone_list(list)),
            SupportsCondition::Or(list) => SupportsCondition::Or(Self::clone_list(list)),
            SupportsCondition::Declaration(text) => SupportsCondition::Declaration(text.clone()),
            SupportsCondition::Selector(text) => SupportsCondition::Selector(text.clone()),
            SupportsCondition::Parens(inner) => SupportsCondition::Parens(Box::new(inner.copy())),
            SupportsCondition::Unknown(text) => SupportsCondition::Unknown(text.clone()),
        }
    }

    /// Adds the condition to a list that does not hold it yet.
    fn add_to(&self, list: &mut Vec<SupportsCondition>)
        ensures
            condition_views(final(list)@) == (if condition_views(old(list)@).contains(self@) {
                condition_views(old(list)@)
            } else {
                condition_views(old(list)@).push(self@)
            }),
    {
        let ghost before = list@;
        let mut i: usize = 0;
        proof {
            lemma_condition_views(before);
        }
        while i < list.len()
            invariant
                i <= list.len(),
                list@ == before,
                condition_views(before).len() == before.len(),
                forall|k: int|
                    0 <= k < before.len() ==> #[trigger] condition_views(before)[k] == before[k]@,
                forall|k: int| 0 <= k < i ==> condition_views(before)[k] != self@,
            decreases list.len() - i,
        {
            if list[i].same(self) {
                assert(condition_views(before)[i as int] == self@);
                return;
            }
            i = i + 1;
        }
        list.push(self.copy());
        assert(list@.drop_last() =~= before);
    }

    /// Joins `b` to the condition by `and`, unless the condition already says `b`.
    pub fn and(&mut self, b: &SupportsCondition)
        ensures
            final(self)@ == conjoined(old(self)@, b@),
    {
        if let SupportsCondition::And(a) = self {
            b.add_to(a);
        } else if !self.same(b) {
            let list = vec![self.copy(), b.copy()];
            proof {
                reveal_with_fuel(condition_view, 2);
                lemma_condition_views(list@);
                assert(condition_views(list@) =~= seq![self@, b@]);
            }
            *self = SupportsCondition::Parens(Box::new(SupportsCondition::And(list)));
        }
    }

    /// Joins `b` to the condition by `or`, unless the condition already says `b`.
    pub fn or(&mut self, b: &SupportsCondition)
        ensures
            final(self)@ == disjoined(old(self)@, b@),
    {
        if let SupportsCondition::Or(a) = self {
            b.add_to(a);
        } else if !self.same(b) {
            let list = vec![self.copy(), b.copy()];
            proof {
                reveal_with_fuel(condition_view, 2);
                lemma_condition_views(list@);
                assert(condition_views(list@) =~= seq![self@, b@]);
            }
            *self = SupportsCondition::Parens(Box::new(SupportsCondition::Or(list)));
        }
    }

    /// Serializes a list of conditions, with `separator` between each two.
    fn list_to_css(list: &Vec<SupportsCondition>, separator: &str, dest: &mut Printer)
        ensures
            final(dest)@ == old(dest)@.write(joined_css(condition_views(list@), separator@)),
        decreases list,
    {
        let ghost views = condition_views(list@);
        let ghost start = dest@;
        let mut i: usize = 0;
        proof {
            lemma_condition_views(list@);
            assert(views.take(0) =~= Seq::empty());
            assert(start.write(Seq::empty()) =~= start);
        }
        while i < list.len()
            invariant
                i <= list.len(),
                views.len() == list.len(),
                forall|k: int| 0 <= k < list.len() ==> #[trigger] views[k] == list@[k]@,
                dest@ == start.write(joined_css(views.take(i as int), separator@)),
            decreases list.len() - i,
        {
            let ghost before = dest@;
            proof {
                assert(views.take(i + 1).drop_last() =~= views.take(i as int));
                assert(views[i as int] == list@[i as int]@);
            }
            if i > 0 {
                dest.write_str(separator);
            }
            list[i].to_css(dest);
            proof {
                let text = joined_css(views.take(i as int), separator@);
                if i == 0 {
                    assert(start.text + Seq::<char>::empty() + condition_css(views[0]) =~= start.text
                        + condition_css(views[0]));
                } else {
                    assert(start.text + text + separator@ + condition_css(views[i as int])
                        =~= start.text + (text + separator@ + condition_css(views[i as int])));
                }
            }
            i = i + 1;
        }
        assert(views.take(list.len() as int) =~= views);
    }

    /// Serializes the condition.
    pub fn to_css(&self, dest: &mut Printer)
        ensures
            final(dest)@ == old(dest)@.write(condition_css(self@)),
        decreases self,
    {
        let ghost start = dest@;
        match self {
            SupportsCondition::Not(condition) => {
                dest.write_str("not ");
                condition.to_css(dest);
            },
            SupportsCondition::And(conditions) => {
                Self::list_to_css(conditions, " and ", dest);
            },
            SupportsCondition::Or(conditions) => {
                Self::list_to_css(conditions, " or ", dest);
            },
            SupportsCondition::Parens(condition) => {
                dest.write_str("(");
                condition.to_css(dest);
                dest.write_str(")");
            },
            SupportsCondition::Declaration(decl) => {
                dest.write_str("(");
                dest.write_str(decl.as_str());
                dest.write_str(")");
            },
            SupportsCondition::Selector(sel) => {
                dest.write_str("selector(");
                dest.write_str(sel.as_str());
                dest.write_str(")");
            },
            SupportsCondition::Unknown(unknown) => {
                dest.write_str(unknown.as_str());
            },
        }
        assert(dest@ =~= start.write(condition_css(self@)));
    }
}

impl Clone for SupportsCondition {
    fn clone(&self) -> (r: SupportsCondition)
        ensures
            r@ == self@,
    {
        self.copy()
    }
}

impl PartialEq for SupportsCondition {
    fn eq(&self, other: &SupportsCondition) -> (r: bool) {
        self.same(other)
    }
}

impl vstd::std_specs::cmp::PartialEqSpecImpl for SupportsCondition {
    open spec fn obeys_eq_spec() -> bool {
        true
    }

    open spec fn eq_spec(&self, other: &SupportsCondition) -> bool {
        self@ == other@
    }
}

/// A condition to which another was joined by `and` holds exactly where both hold.
pub proof fn law_and_is_conjunction(
    a: ConditionView,
    b: ConditionView,
    supported: spec_fn(ConditionView) -> bool,
)
    ensures
        holds(conjoined(a, b), supported) == (holds(a, supported) && holds(b, supported)),
{
    match a {
        ConditionView::And(list) => {
            if list.contains(b) {
                lemma_all_hold(list, supported);
                let i = choose|i: int| 0 <= i < list.len() && list[i] == b;
                assert(all_hold(list, supported) ==> holds(list[i], supported));
            } else {
                assert(list.push(b).drop_last() =~= list);
                assert(all_hold(list.push(b), supported) == (all_hold(list, supported) && holds(
                    b,
                    supported,
                )));
            }
        },
        _ => {
            let pair = seq![a, b];
            assert(pair.drop_last() =~= seq![a]);
            assert(seq![a].drop_last() =~= Seq::empty());
            assert(all_hold(seq![a], supported) == holds(a, supported)) by {
                reveal_with_fuel(all_hold, 2);
            }
            assert(all_hold(pair, supported) == (all_hold(seq![a], supported) && holds(b, supported)));
            assert(holds(ConditionView::And(pair), supported) == all_hold(pair, supported));
        },
    }
}

/// What is printed of conditions: `not ` before a negated one, parentheses around one that stands
/// in them, and conditions that are joined one after the other, with the operator between each two.
pub proof fn law_condition_text(
    c: ConditionView,
    a: Seq<ConditionView>,
    b: Seq<ConditionView>,
    text: Seq<char>,
)
    ensures
        condition_css(ConditionView::Not(Box::new(c))) == "not "@ + condition_css(c),
        condition_css(ConditionView::Parens(Box::new(c))) == "("@ + condition_css(c) + ")"@,
        condition_css(ConditionView::Declaration(text)) == "("@ + text + ")"@,
        condition_css(ConditionView::Selector(text)) == "selector("@ + text + ")"@,
        condition_css(ConditionView::Unknown(text)) == text,
        condition_css(ConditionView::And(seq![c])) == condition_css(c),
        condition_css(ConditionView::Or(seq![c])) == condition_css(c),
        condition_css(ConditionView::And(Seq::empty())) == Seq::<char>::empty(),
        condition_css(ConditionView::Or(Seq::empty())) == Seq::<char>::empty(),
        a.len() > 0 && b.len() > 0 ==> condition_css(ConditionView::And(a + b)) == condition_css(
            ConditionView::And(a),
        ) + " and "@ + condition_css(ConditionView::And(b)),
        a.len() > 0 && b.len() > 0 ==> condition_css(ConditionView::Or(a + b)) == condition_css(
            ConditionView::Or(a),
        ) + " or "@ + condition_css(ConditionView::Or(b)),
{
    lemma_joined_parts(a, b, " and "@);
    lemma_joined_parts(a, b, " or "@);
    assert(condition_css(ConditionView::And(a + b)) == joined_css(a + b, " and "@));
    assert(condition_css(ConditionView::And(a)) == joined_css(a, " and "@));
    assert(condition_css(ConditionView::And(b)) == joined_css(b, " and "@));
    assert(condition_css(ConditionView::Or(a + b)) == joined_css(a + b, " or "@));
    assert(condition_css(ConditionView::Or(a)) == joined_css(a, " or "@));
    assert(condition_css(ConditionView::Or(b)) == joined_css(b, " or "@));
    assert(joined_css(seq![c], " and "@) == condition_css(c));
    assert(joined_css(seq![c], " or "@) == condition_css(c));
    assert(condition_css(ConditionView::And(seq![c])) == joined_css(seq![c], " and "@));
    assert(condition_css(ConditionView::Or(seq![c])) == joined_css(seq![c], " or "@));
    let none = Seq::<ConditionView>::empty();
    assert(condition_css(ConditionView::And(none)) == joined_css(none, " and "@));
    assert(condition_css(ConditionView::Or(none)) == joined_css(none, " or "@));
    assert(joined_css(none, " and "@) =~= Seq::empty());
    assert(joined_css(none, " or "@) =~= Seq::empty());
}

/// Two lists of joined conditions one after the other.
proof fn lemma_joined_parts(
    a: Seq<ConditionView>,
    b: Seq<ConditionView>,
    separator: Seq<char>,
)
    ensures
        a.len() > 0 && b.len() > 0 ==> joined_css(a + b, separator) == joined_css(a, separator)
            + separator + joined_css(b, separator),
    decreases b.len(),
{
    if a.len() > 0 && b.len() > 0 {
        let front = b.drop_last();
        assert((a + b).drop_last() =~= a + front);
        assert((a + b).last() == b.last());
        if front.len() > 0 {
            lemma_joined_parts(a, front, separator);
            assert(joined_css(a + b, separator) =~= joined_css(a, separator) + separator
                + joined_css(b, separator));
        } else {
            assert(a + front =~= a);
        }
    }
}

/// What is printed of a condition to which another was joined: what was printed of it, where it
/// says the other already, and otherwise that, the operator and the other one, in parentheses
/// unless the condition was joined by the same operator before.
pub proof fn law_joined_text(a: ConditionView, b: ConditionView)
    ensures
        a == b && !(a is And) ==> conjoined(a, b) == a,
        a == b && !(a is Or) ==> disjoined(a, b) == a,
        a matches ConditionView::And(list) && list.contains(b) ==> conjoined(a, b) == a,
        a matches ConditionView::Or(list) && list.contains(b) ==> disjoined(a, b) == a,
        a matches ConditionView::And(list) && list.len() > 0 && !list.contains(b)
            ==> condition_css(conjoined(a, b)) == condition_css(a) + " and "@ + condition_css(b),
        a matches ConditionView::Or(list) && list.len() > 0 && !list.contains(b)
            ==> condition_css(disjoined(a, b)) == condition_css(a) + " or "@ + condition_css(b),
        !(a is And) && a != b ==> condition_css(conjoined(a, b)) == "("@ + (condition_css(a)
            + " and "@ + condition_css(b)) + ")"@,
        !(a is Or) && a != b ==> condition_css(disjoined(a, b)) == "("@ + (condition_css(a)
            + " or "@ + condition_css(b)) + ")"@,
{
    let pair = seq![a, b];
    assert(pair.drop_last() =~= seq![a]);
    assert(joined_css(seq![a], " and "@) == condition_css(a));
    assert(joined_css(seq![a], " or "@) == condition_css(a));
    assert(joined_css(pair, " and "@) == condition_css(a) + " and "@ + condition_css(b));
    assert(joined_css(pair, " or "@) == condition_css(a) + " or "@ + condition_css(b));
    assert(condition_css(ConditionView::And(pair)) == joined_css(pair, " and "@));
    assert(condition_css(ConditionView::Or(pair)) == joined_css(pair, " or "@));
    match a {
        ConditionView::And(list) => {
            assert(list.push(b).drop_last() =~= list);
            assert(condition_css(ConditionView::And(list.push(b))) == joined_css(
                list.push(b),
                " and "@,
            ));
        },
        ConditionView::Or(list) => {
            assert(list.push(b).drop_last() =~= list);
            assert(condition_css(ConditionView::Or(list.push(b))) == joined_css(
                list.push(b),
                " or "@,
            ));
        },
        _ => {},
    }
}

/// A condition to which another was joined by `or` holds exactly where one of the two holds.
pub proof fn law_or_is_disjunction(
    a: ConditionView,
    b: ConditionView,
    supported: spec_fn(ConditionView) -> bool,
)
    ensures
        holds(disjoined(a, b), supported) == (holds(a, supported) || holds(b, supported)),
{
    match a {
        ConditionView::Or(list) => {
            if list.contains(b) {
                lemma_any_holds(list, supported);
                let i = choose|i: int| 0 <= i < list.len() && list[i] == b;
                assert(holds(list[i], supported) ==> any_holds(list, supported));
            } else {
                assert(list.push(b).drop_last() =~= list);
                assert(any_holds(list.push(b), supported) == (any_holds(list, supported) || holds(
                    b,
                    supported,
                )));
            }
        },
        _ => {
            let pair = seq![a, b];
            assert(pair.drop_last() =~= seq![a]);
            assert(seq![a].drop_last() =~= Seq::empty());
            assert(any_holds(seq![a], supported) == holds(a, supported)) by {
                reveal_with_fuel(any_holds, 2);
            }
            assert(any_holds(pair, supported) == (any_holds(seq![a], supported) || holds(b, supported)));
            assert(holds(ConditionView::Or(pair), supported) == any_holds(pair, supported));
        },
    }
}

/// `all_hold` speaks of each condition of the list.
proof fn lemma_all_hold(list: Seq<ConditionView>, supported: spec_fn(ConditionView) -> bool)
    ensures
        all_hold(list, supported) == (forall|i: int|
            0 <= i < list.len() ==> holds(#[trigger] list[i], supported)),
    decreases list.len(),
{
    if list.len() > 0 {
        lemma_all_hold(list.drop_last(), supported);
        assert(forall|i: int| 0 <= i < list.len() - 1 ==> list.drop_last()[i] == list[i]);
        if all_hold(list, supported) {
            assert forall|i: int| 0 <= i < list.len() implies holds(#[trigger] list[i], supported) by {
                if i < list.len() - 1 {
                    assert(list.drop_last()[i] == list[i]);
                }
            }
        }
    }
}

/// `any_holds` speaks of each condition of the list.
proof fn lemma_any_holds(list: Seq<ConditionView>, supported: spec_fn(ConditionView) -> bool)
    ensures
        any_holds(list, supported) == (exists|i: int|
            0 <= i < list.len() && holds(#[trigger] list[i], supported)),
    decreases list.len(),
{
    if list.len() > 0 {
        lemma_any_holds(list.drop_last(), supported);
        if exists|i: int| 0 <= i < list.len() && holds(#[trigger] list[i], supported) {
            let i = choose|i: int| 0 <= i < list.len() && holds(#[trigger] list[i], supported);
            if i < list.len() - 1 {
                assert(list.drop_last()[i] == list[i]);
            }
        }
        if any_holds(list.drop_last(), supported) {
            let i = choose|i: int|
                0 <= i < list.len() - 1 && holds(#[trigger] list.drop_last()[i], supported);
            assert(list[i] == list.drop_last()[i]);
        }
    }
}

} // verus!
