//! Media queries: their meaning, their serialization, and the operations that join lists of
//! them.
use crate::printer::Printer;
use crate::text::{
    add_all, add_all_texts, copy_texts, join, law_add_all_keeps, law_join, lemma_add_all,
    same_texts, texts, write_joined,
};
use vstd::prelude::*;

verus! {

/// The word before the type of a media query.
#[derive(Debug, Clone, Copy, PartialEq, Eq, Structural)]
pub enum Qualifier {
    /// Keeps old browsers from reading the query; means nothing else.
    Only,
    /// Negates the query.
    Not,
}

/// A media query: a media type, where it names one, and conditions that must all hold. Each
/// condition is a text in parentheses. The type `all`, which every medium has, is written as
/// `None`.
#[derive(Debug)]
pub struct MediaQuery {
    pub qualifier: Option<Qualifier>,
    pub media_type: Option<String>,
    pub conditions: Vec<String>,
}

/// The mathematical form of a [`MediaQuery`].
#[verifier::ext_equal]
pub struct QueryView {
    pub qualifier: Option<Qualifier>,
    pub media_type: Option<Seq<char>>,
    pub conditions: Seq<Seq<char>>,
}

/// The text of an optional string.
pub open spec fn optional_text(s: Option<String>) -> Option<Seq<char>> {
    match s {
        Some(s) => Some(s@),
        None => None,
    }
}

impl View for MediaQuery {
    type V = QueryView;

    open spec fn view(&self) -> QueryView {
        QueryView {
            qualifier: self.qualifier,
            media_type: optional_text(self.media_type),
            conditions: texts(self.conditions@),
        }
    }
}

/// A list of media queries of which one must match. The empty list always matches.
#[derive(Debug)]
pub struct MediaList {
    pub media_queries: Vec<MediaQuery>,
}

impl View for MediaList {
    type V = Seq<QueryView>;

    open spec fn view(&self) -> Seq<QueryView> {
        self.media_queries@.map_values(|q: MediaQuery| q@)
    }
}

/// What a page is shown on: a type of media and the conditions that hold there.
pub struct Medium {
    pub media_type: Seq<char>,
    pub has: spec_fn(Seq<char>) -> bool,
}

/// Whether conditions all hold on a medium.
pub open spec fn has_all(medium: Medium, conditions: Seq<Seq<char>>) -> bool {
    forall|i: int| 0 <= i < conditions.len() ==> (medium.has)(#[trigger] conditions[i])
}

/// Whether a query matches a medium.
pub open spec fn query_matches(q: QueryView, medium: Medium) -> bool {
    let plain = (q.media_type matches Some(t) ==> t == medium.media_type) && has_all(
        medium,
        q.conditions,
    );
    if q.qualifier == Some(Qualifier::Not) {
        !plain
    } else {
        plain
    }
}

/// Whether a list of queries matches a medium.
pub open spec fn list_matches(list: Seq<QueryView>, medium: Medium) -> bool {
    list.len() == 0 || exists|i: int|
        0 <= i < list.len() && query_matches(#[trigger] list[i], medium)
}

/// The query that matches nothing: `not all`.
pub open spec fn never() -> QueryView {
    QueryView { qualifier: Some(Qualifier::Not), media_type: None, conditions: Seq::empty() }
}

/// The query that matches where both `a` and `b` do, if a single query can say so: a negated
/// query cannot be joined to another one.
pub open spec fn query_and(a: QueryView, b: QueryView) -> Option<QueryView> {
    if a == b {
        Some(a)
    } else if a.qualifier == Some(Qualifier::Not) || b.qualifier == Some(Qualifier::Not) {
        None
    } else if a.media_type is Some && b.media_type is Some && a.media_type != b.media_type {
        Some(never())
    } else {
        Some(
            QueryView {
                qualifier: if a.qualifier is Some {
                    a.qualifier
                } else {
                    b.qualifier
                },
                media_type: if a.media_type is Some {
                    a.media_type
                } else {
                    b.media_type
                },
                conditions: add_all(a.conditions, b.conditions),
            },
        )
    }
}

/// A query joined to each query of a list, if it can be joined to all of them.
pub open spec fn query_and_each(a: QueryView, list: Seq<QueryView>) -> Option<Seq<QueryView>>
    decreases list.len(),
{
    if list.len() == 0 {
        Some(Seq::empty())
    } else {
        match (query_and_each(a, list.drop_last()), query_and(a, list.last())) {
            (Some(others), Some(last)) => Some(others.push(last)),
            _ => None,
        }
    }
}

/// Each query of a list joined to each of another, if all of them can be joined.
pub open spec fn product(a: Seq<QueryView>, b: Seq<QueryView>) -> Option<Seq<QueryView>>
    decreases a.len(),
{
    if a.len() == 0 {
        Some(Seq::empty())
    } else {
        match (product(a.drop_last(), b), query_and_each(a.last(), b)) {
            (Some(others), Some(last)) => Some(others + last),
            _ => None,
        }
    }
}

/// The list that matches where both `a` and `b` do, if their queries can be joined.
pub open spec fn list_and(a: Seq<QueryView>, b: Seq<QueryView>) -> Option<Seq<QueryView>> {
    if a.len() == 0 {
        Some(b)
    } else if b.len() == 0 || a == b {
        Some(a)
    } else {
        product(a, b)
    }
}

/// The CSS text of a query.
pub open spec fn query_css(q: QueryView) -> Seq<char> {
    let word = match q.qualifier {
        Some(Qualifier::Only) => "only "@,
        Some(Qualifier::Not) => "not "@,
        None => Seq::empty(),
    };
    let conditions = join(q.conditions, " and "@);
    match q.media_type {
        Some(t) => word + t + (if q.conditions.len() > 0 {
            " and "@ + conditions
        } else {
            Seq::empty()
        }),
        None => if q.qualifier is Some || q.conditions.len() == 0 {
            word + "all"@ + (if q.conditions.len() > 0 {
                " and "@ + conditions
            } else {
                Seq::empty()
            })
        } else {
            conditions
        },
    }
}

/// The CSS text of a list of queries.
pub open spec fn list_css(list: Seq<QueryView>) -> Seq<char> {
    join(list.map_values(|q: QueryView| query_css(q)), ", "@)
}

impl MediaQuery {
    /// Whether two queries are the same.
    fn same(&self, other: &MediaQuery) -> (r: bool)
        ensures
            r == (self@ == other@),
    {
        let same_type: bool = match &self.media_type {
            Some(a) => match &other.media_type {
                Some(b) => *a == *b,
                None => false,
            },
            None => match &other.media_type {
                Some(_) => false,
                None => true,
            },
        };
        let same_qualifier: bool = match self.qualifier {
            Some(a) => match other.qualifier {
                Some(b) => a == b,
                None => false,
            },
            None => match other.qualifier {
                Some(_) => false,
                None => true,
            },
        };
        same_qualifier && same_type && same_texts(&self.conditions, &other.conditions)
    }

    /// A copy of the query.
    fn copy(&self) -> (r: MediaQuery)
        ensures
            r@ == self@,
    {
        let media_type: Option<String> = match &self.media_type {
            Some(t) => Some(t.clone()),
            None => None,
        };
        MediaQuery {
            qualifier: self.qualifier,
            media_type,
            conditions: copy_texts(&self.conditions),
        }
    }

    /// Whether the query is negated.
    fn is_negated(&self) -> (r: bool)
        ensures
            r == (self.qualifier == Some(Qualifier::Not)),
    {
        match self.qualifier {
            Some(Qualifier::Not) => true,
            _ => false,
        }
    }

    /// The query that matches where both this one and `b` do, if a single query can say so.
    pub fn and(&self, b: &MediaQuery) -> (r: Option<MediaQuery>)
        ensures
            match r {
                Some(q) => query_and(self@, b@) == Some(q@),
                None => query_and(self@, b@) is None,
            },
    {
        if self.same(b) {
            return Some(self.copy());
        }
        if self.is_negated() || b.is_negated() {
            return None;
        }
        let (media_type, agree): (Option<String>, bool) = match &self.media_type {
            Some(a) => match &b.media_type {
                Some(t) => (Some(a.clone()), *a == *t),
                None => (Some(a.clone()), true),
            },
            None => match &b.media_type {
                Some(t) => (Some(t.clone()), true),
                None => (None, true),
            },
        };
        if !agree {
            let q = MediaQuery {
                qualifier: Some(Qualifier::Not),
                media_type: None,
                conditions: Vec::new(),
            };
            assert(q@ =~= never());
            return Some(q);
        }
        let qualifier: Option<Qualifier> = if self.qualifier.is_some() {
            self.qualifier
        } else {
            b.qualifier
        };
        let mut conditions: Vec<String> = copy_texts(&self.conditions);
        add_all_texts(&mut conditions, &b.conditions);
        Some(MediaQuery { qualifier, media_type, conditions })
    }

    /// Serializes the query.
    pub fn to_css(&self, dest: &mut Printer)
        ensures
            final(dest)@ == old(dest)@.write(query_css(self@)),
    {
        let ghost start = dest@;
        match self.qualifier {
            Some(Qualifier::Only) => dest.write_str("only "),
            Some(Qualifier::Not) => dest.write_str("not "),
            None => {},
        }
        let mut named: bool = true;
        match &self.media_type {
            Some(t) => dest.write_str(t.as_str()),
            None => {
                if self.qualifier.is_some() || self.conditions.len() == 0 {
                    dest.write_str("all");
                } else {
                    named = false;
                }
            },
        }
        if self.conditions.len() > 0 {
            if named {
                dest.write_str(" and ");
            }
            write_joined(&self.conditions, " and ", dest);
        }
        assert(dest@ =~= start.write(query_css(self@)));
    }
}

impl MediaList {
    /// The empty list.
    pub fn new() -> (r: MediaList)
        ensures
            r@ == Seq::<QueryView>::empty(),
    {
        let r = MediaList { media_queries: Vec::new() };
        assert(r@ =~= Seq::empty());
        r
    }

    /// Whether the list has no queries.
    pub fn is_empty(&self) -> (r: bool)
        ensures
            r == (self@.len() == 0),
    {
        self.media_queries.len() == 0
    }

    /// Whether two lists hold the same queries in the same order.
    fn same(&self, other: &MediaList) -> (r: bool)
        ensures
            r == (self@ == other@),
    {
        if self.media_queries.len() != other.media_queries.len() {
            assert(self@.len() != other@.len());
            return false;
        }
        let mut i: usize = 0;
        while i < self.media_queries.len()
            invariant
                i <= self.media_queries.len(),
                self.media_queries.len() == other.media_queries.len(),
                forall|k: int| 0 <= k < i ==> self@[k] == other@[k],
            decreases self.media_queries.len() - i,
        {
            if !self.media_queries[i].same(&other.media_queries[i]) {
                assert(self@[i as int] != other@[i as int]);
                return false;
            }
            i = i + 1;
        }
        assert(self@ =~= other@);
        true
    }

    /// A copy of the list.
    fn copy(&self) -> (r: MediaList)
        ensures
            r@ == self@,
    {
        let mut media_queries: Vec<MediaQuery> = Vec::new();
        let mut i: usize = 0;
        while i < self.media_queries.len()
            invariant
                i <= self.media_queries.len(),
                media_queries.len() == i,
                forall|k: int| 0 <= k < i ==> media_queries@[k]@ == self@[k],
            decreases self.media_queries.len() - i,
        {
            media_queries.push(self.media_queries[i].copy());
            i = i + 1;
        }
        let r = MediaList { media_queries };
        assert(r@ =~= self@);
        r
    }

    /// Makes the list match only where `b` does too. Where the queries cannot be joined, the
    /// list stays as it is.
    pub fn and(&mut self, b: &MediaList) -> (r: Result<(), ()>)
        ensures
            match list_and(old(self)@, b@) {
                Some(list) => r is Ok && final(self)@ == list,
                None => r is Err && final(self)@ == old(self)@,
            },
    {
        if self.media_queries.len() == 0 {
            *self = b.copy();
            return Ok(());
        }
        if b.media_queries.len() == 0 || self.same(b) {
            return Ok(());
        }
        let ghost left = self@;
        let ghost right = b@;
        let mut joined: MediaList = MediaList::new();
        let mut i: usize = 0;
        assert(left.take(0) =~= Seq::empty());
        while i < self.media_queries.len()
            invariant
                i <= self.media_queries.len(),
                self@ == left,
                left == old(self)@,
                right == b@,
                left.len() > 0,
                right.len() > 0,
                left != right,
                product(left.take(i as int), right) == Some(joined@),
            decreases self.media_queries.len() - i,
        {
            let ghost rows = joined@;
            let mut j: usize = 0;
            proof {
                assert(right.take(0) =~= Seq::empty());
                assert(left.take(i + 1).drop_last() =~= left.take(i as int));
                assert(left.take(i + 1).last() == left[i as int]);
                assert(rows + Seq::<QueryView>::empty() =~= joined@);
            }
            while j < b.media_queries.len()
                invariant
                    i < self.media_queries.len(),
                    j <= b.media_queries.len(),
                    self@ == left,
                    left == old(self)@,
                    right == b@,
                    left.len() > 0,
                    right.len() > 0,
                    left != right,
                    left.take(i + 1).drop_last() == left.take(i as int),
                    left.take(i + 1).last() == left[i as int],
                    product(left.take(i as int), right) == Some(rows),
                    query_and_each(left[i as int], right.take(j as int)) matches Some(row) && joined@
                        == rows + row,
                decreases b.media_queries.len() - j,
            {
                let ghost row = query_and_each(left[i as int], right.take(j as int))->0;
                proof {
                    assert(right.take(j + 1).drop_last() =~= right.take(j as int));
                    assert(right.take(j + 1).last() == right[j as int]);
                }
                match self.media_queries[i].and(&b.media_queries[j]) {
                    None => {
                        proof {
                            lemma_and_each_prefix(left[i as int], right, j + 1);
                            lemma_product_prefix(left, right, i + 1);
                        }
                        return Err(());
                    },
                    Some(q) => {
                        let ghost before = joined@;
                        joined.media_queries.push(q);
                        assert(joined@ =~= before.push(q@));
                        assert(joined@ =~= rows + row.push(q@));
                    },
                }
                j = j + 1;
            }
            assert(right.take(right.len() as int) =~= right);
            i = i + 1;
        }
        assert(left.take(left.len() as int) =~= left);
        *self = joined;
        Ok(())
    }

    /// Adds the queries of `b` that the list does not hold yet.
    pub fn or(&mut self, b: &MediaList)
        ensures
            final(self)@ == add_all(old(self)@, b@),
    {
        let ghost start = self@;
        let ghost added = b@;
        let mut i: usize = 0;
        assert(added.take(0) =~= Seq::empty());
        while i < b.media_queries.len()
            invariant
                i <= b.media_queries.len(),
                added == b@,
                self@ == add_all(start, added.take(i as int)),
            decreases b.media_queries.len() - i,
        {
            let ghost before = self@;
            let mut found: bool = false;
            let mut k: usize = 0;
            while k < self.media_queries.len() && !found
                invariant
                    i < b.media_queries.len(),
                    k <= self.media_queries.len(),
                    self@ == before,
                    found ==> before.contains(b@[i as int]),
                    !found ==> forall|m: int| 0 <= m < k ==> before[m] != b@[i as int],
                decreases self.media_queries.len() - k,
            {
                if self.media_queries[k].same(&b.media_queries[i]) {
                    found = true;
                    assert(before[k as int] == b@[i as int]);
                }
                k = k + 1;
            }
            proof {
                assert(added.take(i + 1).drop_last() =~= added.take(i as int));
                assert(added.take(i + 1).last() == b@[i as int]);
            }
            if !found {
                self.media_queries.push(b.media_queries[i].copy());
                assert(self@ =~= before.push(b@[i as int]));
            }
            i = i + 1;
        }
        assert(added.take(added.len() as int) =~= added);
    }

    /// Serializes the list.
    pub fn to_css(&self, dest: &mut Printer)
        ensures
            final(dest)@ == old(dest)@.write(list_css(self@)),
    {
        let ghost views = self@.map_values(|q: QueryView| query_css(q));
        let ghost start = dest@;
        let mut i: usize = 0;
        proof {
            assert(views.take(0) =~= Seq::empty());
            assert(start.write(Seq::empty()) =~= start);
        }
        while i < self.media_queries.len()
            invariant
                i <= self.media_queries.len(),
                views == self@.map_values(|q: QueryView| query_css(q)),
                dest@ == start.write(join(views.take(i as int), ", "@)),
            decreases self.media_queries.len() - i,
        {
            proof {
                assert(views.take(i + 1).drop_last() =~= views.take(i as int));
                assert(views[i as int] == query_css(self.media_queries@[i as int]@));
            }
            if i > 0 {
                dest.write_str(", ");
            }
            self.media_queries[i].to_css(dest);
            proof {
                let text = join(views.take(i as int), ", "@);
                if i == 0 {
                    assert(start.text + Seq::<char>::empty() + views[0] =~= start.text + views[0]);
                } else {
                    assert(start.text + text + ", "@ + views[i as int] =~= start.text + (text
                        + ", "@ + views[i as int]));
                }
            }
            i = i + 1;
        }
        assert(views.take(views.len() as int) =~= views);
    }
}

/// Where a query cannot be joined to the first queries of a list, it cannot be joined to all.
proof fn lemma_and_each_prefix(a: QueryView, list: Seq<QueryView>, n: int)
    requires
        0 <= n <= list.len(),
        query_and_each(a, list.take(n)) is None,
    ensures
        query_and_each(a, list) is None,
    decreases list.len() - n,
{
    if n < list.len() {
        assert(list.take(n + 1).drop_last() =~= list.take(n));
        lemma_and_each_prefix(a, list, n + 1);
    } else {
        assert(list.take(n) =~= list);
    }
}

/// Where the first queries of a list cannot be joined, not all can be.
proof fn lemma_product_prefix(a: Seq<QueryView>, b: Seq<QueryView>, n: int)
    requires
        0 <= n <= a.len(),
        product(a.take(n), b) is None,
    ensures
        product(a, b) is None,
    decreases a.len() - n,
{
    if n < a.len() {
        assert(a.take(n + 1).drop_last() =~= a.take(n));
        lemma_product_prefix(a, b, n + 1);
    } else {
        assert(a.take(n) =~= a);
    }
}

impl Clone for MediaQuery {
    fn clone(&self) -> (r: MediaQuery)
        ensures
            r@ == self@,
    {
        self.copy()
    }
}

impl Clone for MediaList {
    fn clone(&self) -> (r: MediaList)
        ensures
            r@ == self@,
    {
        self.copy()
    }
}

impl PartialEq for MediaQuery {
    fn eq(&self, other: &MediaQuery) -> (r: bool) {
        self.same(other)
    }
}

impl vstd::std_specs::cmp::PartialEqSpecImpl for MediaQuery {
    open spec fn obeys_eq_spec() -> bool {
        true
    }

    open spec fn eq_spec(&self, other: &MediaQuery) -> bool {
        self@ == other@
    }
}

impl PartialEq for MediaList {
    fn eq(&self, other: &MediaList) -> (r: bool) {
        self.same(other)
    }
}

impl vstd::std_specs::cmp::PartialEqSpecImpl for MediaList {
    open spec fn obeys_eq_spec() -> bool {
        true
    }

    open spec fn eq_spec(&self, other: &MediaList) -> bool {
        self@ == other@
    }
}

/// A query joined to another matches exactly where both match.
pub proof fn law_query_and_is_conjunction(a: QueryView, b: QueryView, medium: Medium)
    requires
        query_and(a, b) is Some,
    ensures
        query_matches(query_and(a, b)->0, medium) == (query_matches(a, medium) && query_matches(
            b,
            medium,
        )),
{
    let both = add_all(a.conditions, b.conditions);
    lemma_add_all(a.conditions, b.conditions);
    if has_all(medium, a.conditions) && has_all(medium, b.conditions) {
        assert forall|i: int| 0 <= i < both.len() implies (medium.has)(#[trigger] both[i]) by {
            assert(both.contains(both[i]));
            if a.conditions.contains(both[i]) {
                let k = a.conditions.index_of(both[i]);
                assert((medium.has)(a.conditions[k]));
            } else {
                let k = b.conditions.index_of(both[i]);
                assert((medium.has)(b.conditions[k]));
            }
        }
    }
    if has_all(medium, both) {
        assert forall|i: int| 0 <= i < a.conditions.len() implies (medium.has)(
            #[trigger] a.conditions[i],
        ) by {
            assert(both.contains(a.conditions[i]));
            let k = both.index_of(a.conditions[i]);
            assert((medium.has)(both[k]));
        }
        assert forall|i: int| 0 <= i < b.conditions.len() implies (medium.has)(
            #[trigger] b.conditions[i],
        ) by {
            assert(both.contains(b.conditions[i]));
            let k = both.index_of(b.conditions[i]);
            assert((medium.has)(both[k]));
        }
    }
}

/// A list joined to another by `and` matches exactly where both match.
pub proof fn law_media_and_is_conjunction(a: Seq<QueryView>, b: Seq<QueryView>, medium: Medium)
    requires
        list_and(a, b) is Some,
    ensures
        list_matches(list_and(a, b)->0, medium) == (list_matches(a, medium) && list_matches(
            b,
            medium,
        )),
{
    if a.len() > 0 && b.len() > 0 && a != b {
        lemma_product(a, b, medium);
    }
}

/// Whether the queries of two lists can be joined by `and`: one of the lists is empty, or they are
/// the same, or no query is negated that would have to be joined to a different one.
pub open spec fn can_be_joined(a: Seq<QueryView>, b: Seq<QueryView>) -> bool {
    ||| a.len() == 0
    ||| b.len() == 0
    ||| a == b
    ||| forall|i: int, j: int|
        0 <= i < a.len() && 0 <= j < b.len() && #[trigger] a[i] != #[trigger] b[j]
            ==> a[i].qualifier != Some(Qualifier::Not) && b[j].qualifier != Some(Qualifier::Not)
}

/// Two lists can be joined by `and`, unless a query of one is negated and would have to be joined
/// to a different query of the other.
pub proof fn law_media_and_fails(a: Seq<QueryView>, b: Seq<QueryView>)
    ensures
        list_and(a, b) is Some <==> can_be_joined(a, b),
{
    if a.len() > 0 && b.len() > 0 && a != b {
        lemma_product_fails(a, b);
    }
}

/// What a query joined to each query of a list is.
proof fn lemma_and_each_fails(a: QueryView, list: Seq<QueryView>)
    ensures
        query_and_each(a, list) is Some <==> forall|j: int|
            0 <= j < list.len() ==> query_and(a, #[trigger] list[j]) is Some,
        query_and_each(a, list) matches Some(row) ==> row.len() == list.len() && forall|j: int|
            0 <= j < list.len() ==> Some(#[trigger] row[j]) == query_and(a, list[j]),
    decreases list.len(),
{
    if list.len() > 0 {
        let front = list.drop_last();
        lemma_and_each_fails(a, front);
        if query_and_each(a, list) is Some {
            assert forall|j: int| 0 <= j < list.len() implies query_and(
                a,
                #[trigger] list[j],
            ) is Some by {
                if j < front.len() {
                    assert(front[j] == list[j]);
                }
            }
        }
        if forall|j: int| 0 <= j < list.len() ==> query_and(a, #[trigger] list[j]) is Some {
            assert forall|j: int| 0 <= j < front.len() implies query_and(
                a,
                #[trigger] front[j],
            ) is Some by {
                assert(query_and(a, list[j]) is Some);
            }
            assert(query_and(a, list[list.len() - 1]) is Some);
        }
    }
}

/// Two lists can be joined where each query of one can be joined to each of the other.
proof fn lemma_product_fails(a: Seq<QueryView>, b: Seq<QueryView>)
    ensures
        product(a, b) is Some <==> forall|i: int, j: int|
            0 <= i < a.len() && 0 <= j < b.len() && #[trigger] a[i] != #[trigger] b[j]
                ==> a[i].qualifier != Some(Qualifier::Not) && b[j].qualifier != Some(
                Qualifier::Not,
            ),
    decreases a.len(),
{
    if a.len() > 0 {
        let front = a.drop_last();
        lemma_product_fails(front, b);
        lemma_and_each_fails(a.last(), b);
        if product(a, b) is Some {
            assert forall|i: int, j: int|
                0 <= i < a.len() && 0 <= j < b.len() && #[trigger] a[i]
                    != #[trigger] b[j] implies a[i].qualifier != Some(Qualifier::Not)
                && b[j].qualifier != Some(Qualifier::Not) by {
                if i < front.len() {
                    assert(front[i] == a[i]);
                } else {
                    assert(query_and(a.last(), b[j]) is Some);
                }
            }
        }
        if forall|i: int, j: int|
            0 <= i < a.len() && 0 <= j < b.len() && #[trigger] a[i] != #[trigger] b[j]
                ==> a[i].qualifier != Some(Qualifier::Not) && b[j].qualifier != Some(
                Qualifier::Not,
            ) {
            assert forall|i: int, j: int|
                0 <= i < front.len() && 0 <= j < b.len() && #[trigger] front[i]
                    != #[trigger] b[j] implies front[i].qualifier != Some(Qualifier::Not)
                && b[j].qualifier != Some(Qualifier::Not) by {
                assert(a[i] == front[i]);
            }
            assert forall|j: int| 0 <= j < b.len() implies query_and(
                a.last(),
                #[trigger] b[j],
            ) is Some by {
                assert(a[a.len() - 1] == a.last());
            }
        }
    }
}

/// A query joined to another: where both are the same, it is that one; the media type is one that
/// one of them names, `only` is kept, and the conditions are those of both, first those of `a`.
/// Where they name different types, it is `not all`.
pub proof fn law_query_and(a: QueryView, b: QueryView)
    ensures
        query_and(a, b) is None <==> a != b && (a.qualifier == Some(Qualifier::Not) || b.qualifier
            == Some(Qualifier::Not)),
        a == b ==> query_and(a, b) == Some(a),
        a != b && query_and(a, b) is Some ==> {
            let r = query_and(a, b)->0;
            if a.media_type is Some && b.media_type is Some && a.media_type != b.media_type {
                r.qualifier == Some(Qualifier::Not) && r.media_type is None && r.conditions.len()
                    == 0
            } else {
                &&& r.qualifier == Some(Qualifier::Only) <==> a.qualifier == Some(Qualifier::Only)
                    || b.qualifier == Some(Qualifier::Only)
                &&& r.qualifier != Some(Qualifier::Not)
                &&& a.media_type is Some ==> r.media_type == a.media_type
                &&& b.media_type is Some ==> r.media_type == b.media_type
                &&& a.media_type is None && b.media_type is None ==> r.media_type is None
                &&& r.conditions == add_all(a.conditions, b.conditions)
                &&& a.conditions.is_prefix_of(r.conditions)
                &&& forall|x: Seq<char>| #[trigger]
                    r.conditions.contains(x) <==> a.conditions.contains(x)
                        || b.conditions.contains(x)
            }
        },
{
    lemma_add_all(a.conditions, b.conditions);
    law_add_all_keeps(a.conditions, b.conditions);
    match (a.qualifier, b.qualifier) {
        (Some(Qualifier::Only), Some(Qualifier::Only)) => {},
        (Some(Qualifier::Only), None) => {},
        (None, Some(Qualifier::Only)) => {},
        (None, None) => {},
        _ => {},
    }
}

/// A list joined to another by `and` holds each query of one joined to each of the other, those of
/// the first query of `a` first.
pub proof fn law_media_and_joins_each(a: Seq<QueryView>, b: Seq<QueryView>, i: int, j: int)
    requires
        list_and(a, b) is Some,
        a != b,
        0 <= i < a.len(),
        0 <= j < b.len(),
    ensures
        list_and(a, b)->0.len() == a.len() * b.len(),
        0 <= i * b.len() + j < a.len() * b.len(),
        Some(list_and(a, b)->0[i * b.len() + j]) == query_and(a[i], b[j]),
{
    lemma_product_len(a, b);
    lemma_product_each(a, b, i, j);
}

/// How many queries there are.
proof fn lemma_product_len(a: Seq<QueryView>, b: Seq<QueryView>)
    requires
        product(a, b) is Some,
    ensures
        product(a, b)->0.len() == a.len() * b.len(),
    decreases a.len(),
{
    let n = b.len() as int;
    let m = a.len() as int;
    if m > 0 {
        lemma_product_len(a.drop_last(), b);
        lemma_and_each_fails(a.last(), b);
        assert(m * n == (m - 1) * n + n) by (nonlinear_arith);
    } else {
        assert(m * n == 0) by (nonlinear_arith)
            requires
                m == 0,
        ;
    }
}

/// Where each query is.
proof fn lemma_product_each(a: Seq<QueryView>, b: Seq<QueryView>, i: int, j: int)
    requires
        product(a, b) is Some,
        0 <= i < a.len(),
        0 <= j < b.len(),
    ensures
        0 <= i * b.len() + j < a.len() * b.len(),
        Some(product(a, b)->0[i * b.len() + j]) == query_and(a[i], b[j]),
    decreases a.len(),
{
    let front = a.drop_last();
    let others = product(front, b)->0;
    let row = query_and_each(a.last(), b)->0;
    let n = b.len() as int;
    let m = a.len() as int;
    lemma_product_len(front, b);
    lemma_and_each_fails(a.last(), b);
    assert(m * n == (m - 1) * n + n) by (nonlinear_arith);
    if i < m - 1 {
        lemma_product_each(front, b, i, j);
        assert((others + row)[i * n + j] == others[i * n + j]);
    } else {
        assert(0 <= (m - 1) * n) by (nonlinear_arith)
            requires
                m >= 1,
                n >= 0,
        ;
        assert((others + row)[others.len() + j] == row[j]);
    }
}

/// How a query is written: the word before the type, the type, or `all` where a type has to stand
/// and there is none, and the conditions, with `and` between each two of these.
pub proof fn law_query_text(q: QueryView)
    ensures
        ({
            let bare = QueryView { qualifier: None, ..q };
            let named = QueryView { media_type: Some("all"@), ..q };
            let short = QueryView { conditions: Seq::empty(), ..q };
            &&& q.media_type is None && (q.qualifier is Some || q.conditions.len() == 0)
                ==> query_css(q) == query_css(named)
            &&& q.media_type is Some && q.qualifier == Some(Qualifier::Not) ==> query_css(q)
                == "not "@ + query_css(bare)
            &&& q.media_type is Some && q.qualifier == Some(Qualifier::Only) ==> query_css(q)
                == "only "@ + query_css(bare)
            &&& q.media_type is Some && q.conditions.len() > 0 ==> query_css(q) == query_css(short)
                + " and "@ + join(q.conditions, " and "@)
            &&& q.qualifier is None && q.conditions.len() == 0 && q.media_type is Some
                ==> query_css(q) == q.media_type->0
            &&& q.qualifier is None && q.media_type is None && q.conditions.len() > 0 ==> query_css(
                q,
            ) == join(q.conditions, " and "@)
        }),
{
    let bare = QueryView { qualifier: None, ..q };
    let named = QueryView { media_type: Some("all"@), ..q };
    let short = QueryView { conditions: Seq::empty(), ..q };
    assert(query_css(q) =~= query_css(q));
    if let Some(t) = q.media_type {
        let none = Seq::<char>::empty();
        if q.conditions.len() > 0 {
            let tail = " and "@ + join(q.conditions, " and "@);
            assert(none + t + tail =~= t + tail);
            assert("not "@ + t + tail =~= "not "@ + (t + tail));
            assert("only "@ + t + tail =~= "only "@ + (t + tail));
            assert(query_css(q) =~= query_css(short) + " and "@ + join(q.conditions, " and "@));
        } else {
            assert(none + t + none =~= t);
            assert("not "@ + t + none =~= "not "@ + t);
            assert("only "@ + t + none =~= "only "@ + t);
        }
    }
}

/// How a list of queries is written: query after query, with a comma between each two.
pub proof fn law_media_list_text(a: Seq<QueryView>, b: Seq<QueryView>, q: QueryView)
    ensures
        list_css(Seq::empty()) == Seq::<char>::empty(),
        list_css(seq![q]) == query_css(q),
        a.len() > 0 && b.len() > 0 ==> list_css(a + b) == list_css(a) + ", "@ + list_css(b),
{
    let f = |q: QueryView| query_css(q);
    law_join(a.map_values(f), b.map_values(f), query_css(q), ", "@);
    assert((a + b).map_values(f) =~= a.map_values(f) + b.map_values(f));
    assert(seq![q].map_values(f) =~= seq![query_css(q)]);
    assert(Seq::<QueryView>::empty().map_values(f) =~= Seq::empty());
}

/// A list joined to another by `or` matches exactly where one of them matches, where each has a
/// query.
pub proof fn law_media_or_is_disjunction(a: Seq<QueryView>, b: Seq<QueryView>, medium: Medium)
    requires
        a.len() > 0,
        b.len() > 0,
    ensures
        list_matches(add_all(a, b), medium) == (list_matches(a, medium) || list_matches(b, medium)),
{
    let both = add_all(a, b);
    lemma_add_all(a, b);
    if list_matches(both, medium) {
        let i = choose|i: int| 0 <= i < both.len() && query_matches(#[trigger] both[i], medium);
        assert(both.contains(both[i]));
        if a.contains(both[i]) {
            assert(query_matches(a[a.index_of(both[i])], medium));
        } else {
            assert(query_matches(b[b.index_of(both[i])], medium));
        }
    }
    if list_matches(a, medium) {
        let i = choose|i: int| 0 <= i < a.len() && query_matches(#[trigger] a[i], medium);
        assert(both.contains(a[i]));
        assert(query_matches(both[both.index_of(a[i])], medium));
    }
    if list_matches(b, medium) {
        let i = choose|i: int| 0 <= i < b.len() && query_matches(#[trigger] b[i], medium);
        assert(both.contains(b[i]));
        assert(query_matches(both[both.index_of(b[i])], medium));
    }
}

/// Whether a query of a list matches.
spec fn some_match(list: Seq<QueryView>, medium: Medium) -> bool {
    exists|i: int| 0 <= i < list.len() && query_matches(#[trigger] list[i], medium)
}

/// Of two lists of queries one after the other one matches where a query of either does.
proof fn lemma_some_match_concat(a: Seq<QueryView>, b: Seq<QueryView>, medium: Medium)
    ensures
        some_match(a + b, medium) == (some_match(a, medium) || some_match(b, medium)),
{
    let both = a + b;
    if some_match(both, medium) {
        let i = choose|i: int| 0 <= i < both.len() && query_matches(#[trigger] both[i], medium);
        if i < a.len() {
            assert(query_matches(a[i], medium));
        } else {
            assert(query_matches(b[i - a.len()], medium));
        }
    }
    if some_match(a, medium) {
        let i = choose|i: int| 0 <= i < a.len() && query_matches(#[trigger] a[i], medium);
        assert(query_matches(both[i], medium));
    }
    if some_match(b, medium) {
        let i = choose|i: int| 0 <= i < b.len() && query_matches(#[trigger] b[i], medium);
        assert(query_matches(both[i + a.len()], medium));
    }
}

/// A query joined to each query of a list matches where it and one of them do.
proof fn lemma_and_each(a: QueryView, list: Seq<QueryView>, medium: Medium)
    requires
        query_and_each(a, list) is Some,
    ensures
        some_match(query_and_each(a, list)->0, medium) == (query_matches(a, medium) && some_match(
            list,
            medium,
        )),
        query_and_each(a, list)->0.len() == list.len(),
    decreases list.len(),
{
    if list.len() > 0 {
        let others = query_and_each(a, list.drop_last())->0;
        let last = query_and(a, list.last())->0;
        lemma_and_each(a, list.drop_last(), medium);
        law_query_and_is_conjunction(a, list.last(), medium);
        lemma_some_match_concat(others, seq![last], medium);
        lemma_some_match_concat(list.drop_last(), seq![list.last()], medium);
        assert(others.push(last) =~= others + seq![last]);
        assert(list =~= list.drop_last() + seq![list.last()]);
        assert(some_match(seq![last], medium) == query_matches(last, medium)) by {
            assert(seq![last][0] == last);
        }
        assert(some_match(seq![list.last()], medium) == query_matches(list.last(), medium)) by {
            assert(seq![list.last()][0] == list.last());
        }
    }
}

/// The queries of a list joined to each of another match where one of each do.
proof fn lemma_product(a: Seq<QueryView>, b: Seq<QueryView>, medium: Medium)
    requires
        product(a, b) is Some,
    ensures
        some_match(product(a, b)->0, medium) == (some_match(a, medium) && some_match(b, medium)),
        a.len() > 0 && b.len() > 0 ==> product(a, b)->0.len() > 0,
    decreases a.len(),
{
    if a.len() > 0 {
        let others = product(a.drop_last(), b)->0;
        let last = query_and_each(a.last(), b)->0;
        lemma_product(a.drop_last(), b, medium);
        lemma_and_each(a.last(), b, medium);
        lemma_some_match_concat(others, last, medium);
        lemma_some_match_concat(a.drop_last(), seq![a.last()], medium);
        assert(a =~= a.drop_last() + seq![a.last()]);
        assert(some_match(seq![a.last()], medium) == query_matches(a.last(), medium)) by {
            assert(seq![a.last()][0] == a.last());
        }
    }
}

} // verus!
