//! Lists of texts.
use crate::printer::Printer;
use vstd::prelude::*;

verus! {

/// The texts of a list of strings.
pub open spec fn texts(list: Seq<String>) -> Seq<Seq<char>> {
    list.map_values(|s: String| s@)
}

/// The items of `a`, followed by those of `b` that are not there yet.
pub open spec fn add_all<T>(a: Seq<T>, b: Seq<T>) -> Seq<T>
    decreases b.len(),
{
    if b.len() == 0 {
        a
    } else {
        let others = add_all(a, b.drop_last());
        if others.contains(b.last()) {
            others
        } else {
            others.push(b.last())
        }
    }
}

/// `add_all` holds the items of both lists and no others.
pub proof fn lemma_add_all<T>(a: Seq<T>, b: Seq<T>)
    ensures
        forall|x: T| #[trigger] add_all(a, b).contains(x) <==> a.contains(x) || b.contains(x),
        add_all(a, b).len() >= a.len(),
    decreases b.len(),
{
    if b.len() > 0 {
        let others = add_all(a, b.drop_last());
        lemma_add_all(a, b.drop_last());
        assert forall|x: T| #[trigger]
            add_all(a, b).contains(x) <==> a.contains(x) || b.contains(x) by {
            assert(b.contains(x) <==> b.drop_last().contains(x) || b.last() == x) by {
                if b.contains(x) {
                    let i = b.index_of(x);
                    if i < b.len() - 1 {
                        assert(b.drop_last()[i] == x);
                    }
                }
                if b.drop_last().contains(x) {
                    let i = b.drop_last().index_of(x);
                    assert(b[i] == x);
                }
                assert(b[b.len() - 1] == b.last());
            }
            assert(others.push(b.last()).contains(x) <==> others.contains(x) || b.last() == x) by {
                if others.push(b.last()).contains(x) {
                    let i = others.push(b.last()).index_of(x);
                    if i < others.len() {
                        assert(others[i] == x);
                    }
                }
                if others.contains(x) {
                    let i = others.index_of(x);
                    assert(others.push(b.last())[i] == x);
                }
                assert(others.push(b.last())[others.len() as int] == b.last());
            }
        }
    }
}

/// Adding items that are missing leaves those that are there in their places, and adds none twice.
pub proof fn law_add_all_keeps<T>(a: Seq<T>, b: Seq<T>)
    ensures
        a.is_prefix_of(add_all(a, b)),
        forall|i: int, j: int|
            0 <= i < j < add_all(a, b).len() && a.len() <= j ==> #[trigger] add_all(a, b)[i]
                != #[trigger] add_all(a, b)[j],
    decreases b.len(),
{
    if b.len() > 0 {
        let others = add_all(a, b.drop_last());
        law_add_all_keeps(a, b.drop_last());
        assert(a =~= others.take(a.len() as int));
        if !others.contains(b.last()) {
            let all = others.push(b.last());
            assert(all.take(a.len() as int) =~= a);
            assert forall|i: int, j: int|
                0 <= i < j < all.len() && a.len() <= j implies #[trigger] all[i]
                != #[trigger] all[j] by {
                if j == others.len() {
                    assert(others[i] == all[i]);
                } else {
                    assert(others[i] != others[j]);
                }
            }
        }
    }
}

/// Adding the items of two lists one after the other is adding those of both lists at once, and a
/// single item goes to the end, unless it is there already.
pub proof fn law_add_all_in_turn<T>(a: Seq<T>, b: Seq<T>, c: Seq<T>, item: T)
    ensures
        add_all(add_all(a, b), c) == add_all(a, b + c),
        a.contains(item) ==> add_all(a, seq![item]) == a,
        !a.contains(item) ==> add_all(a, seq![item]) == a.push(item),
    decreases c.len(),
{
    if c.len() > 0 {
        law_add_all_in_turn(a, b, c.drop_last(), item);
        assert((b + c).drop_last() =~= b + c.drop_last());
    } else {
        assert(b + c =~= b);
    }
    assert(seq![item].drop_last() =~= Seq::empty());
    assert(add_all(a, Seq::<T>::empty()) == a);
}

/// The texts of a list, with `separator` between each two.
pub open spec fn join(list: Seq<Seq<char>>, separator: Seq<char>) -> Seq<char>
    decreases list.len(),
{
    if list.len() == 0 {
        Seq::empty()
    } else if list.len() == 1 {
        list.last()
    } else {
        join(list.drop_last(), separator) + separator + list.last()
    }
}

/// Texts that are joined stand one after the other, with the separator between each two of them and
/// nowhere else.
pub proof fn law_join(a: Seq<Seq<char>>, b: Seq<Seq<char>>, text: Seq<char>, separator: Seq<char>)
    ensures
        join(Seq::empty(), separator) == Seq::<char>::empty(),
        join(seq![text], separator) == text,
        a.len() > 0 && b.len() > 0 ==> join(a + b, separator) == join(a, separator) + separator
            + join(b, separator),
    decreases b.len(),
{
    if a.len() > 0 && b.len() > 0 {
        let front = b.drop_last();
        assert((a + b).drop_last() =~= a + front);
        assert((a + b).last() == b.last());
        if front.len() > 0 {
            law_join(a, front, text, separator);
            assert(join(a + b, separator) =~= join(a, separator) + separator + join(b, separator));
        } else {
            assert(a + front =~= a);
        }
    }
}

/// Whether two lists hold the same texts in the same order.
pub fn same_texts(a: &Vec<String>, b: &Vec<String>) -> (r: bool)
    ensures
        r == (texts(a@) == texts(b@)),
{
    if a.len() != b.len() {
        assert(texts(a@).len() != texts(b@).len());
        return false;
    }
    let mut i: usize = 0;
    while i < a.len()
        invariant
            i <= a.len(),
            a.len() == b.len(),
            forall|k: int| 0 <= k < i ==> a@[k]@ == b@[k]@,
        decreases a.len() - i,
    {
        if a[i] != b[i] {
            assert(texts(a@)[i as int] != texts(b@)[i as int]);
            return false;
        }
        i = i + 1;
    }
    assert(texts(a@) =~= texts(b@));
    true
}

/// A copy of a list.
pub fn copy_texts(list: &Vec<String>) -> (r: Vec<String>)
    ensures
        texts(r@) == texts(list@),
{
    let mut copy: Vec<String> = Vec::new();
    let mut i: usize = 0;
    while i < list.len()
        invariant
            i <= list.len(),
            copy.len() == i,
            forall|k: int| 0 <= k < i ==> copy@[k]@ == list@[k]@,
        decreases list.len() - i,
    {
        copy.push(list[i].clone());
        i = i + 1;
    }
    assert(texts(copy@) =~= texts(list@));
    copy
}

/// Adds to a list the texts of another that it does not hold yet.
pub fn add_all_texts(list: &mut Vec<String>, other: &Vec<String>)
    ensures
        texts(final(list)@) == add_all(texts(old(list)@), texts(other@)),
{
    let ghost start = texts(list@);
    let ghost added = texts(other@);
    let mut i: usize = 0;
    assert(added.take(0) =~= Seq::empty());
    while i < other.len()
        invariant
            i <= other.len(),
            added == texts(other@),
            texts(list@) == add_all(start, added.take(i as int)),
        decreases other.len() - i,
    {
        let ghost before = list@;
        let found: bool = holds_text(list, &other[i]);
        proof {
            assert(added.take(i + 1).drop_last() =~= added.take(i as int));
            assert(added.take(i + 1).last() == other@[i as int]@);
        }
        if !found {
            list.push(other[i].clone());
            assert(texts(list@) =~= texts(before).push(other@[i as int]@));
        }
        i = i + 1;
    }
    assert(added.take(other.len() as int) =~= added);
}

/// Whether a list holds a text.
pub fn holds_text(list: &Vec<String>, text: &String) -> (r: bool)
    ensures
        r == texts(list@).contains(text@),
{
    let mut i: usize = 0;
    while i < list.len()
        invariant
            i <= list.len(),
            forall|k: int| 0 <= k < i ==> texts(list@)[k] != text@,
        decreases list.len() - i,
    {
        if list[i] == *text {
            assert(texts(list@)[i as int] == text@);
            return true;
        }
        i = i + 1;
    }
    false
}

/// Writes the texts of a list, with `separator` between each two.
pub fn write_joined(list: &Vec<String>, separator: &str, dest: &mut Printer)
    ensures
        final(dest)@ == old(dest)@.write(join(texts(list@), separator@)),
{
    let ghost views = texts(list@);
    let ghost start = dest@;
    let mut i: usize = 0;
    proof {
        assert(views.take(0) =~= Seq::empty());
        assert(start.write(Seq::empty()) =~= start);
    }
    while i < list.len()
        invariant
            i <= list.len(),
            views == texts(list@),
            dest@ == start.write(join(views.take(i as int), separator@)),
        decreases list.len() - i,
    {
        proof {
            assert(views.take(i + 1).drop_last() =~= views.take(i as int));
            assert(views[i as int] == list@[i as int]@);
        }
        if i > 0 {
            dest.write_str(separator);
        }
        dest.write_str(list[i].as_str());
        proof {
            let text = join(views.take(i as int), separator@);
            if i == 0 {
                assert(start.text + Seq::<char>::empty() + views[0] =~= start.text + views[0]);
            } else {
                assert(start.text + text + separator@ + views[i as int] =~= start.text + (text
                    + separator@ + views[i as int]));
            }
        }
        i = i + 1;
    }
    assert(views.take(list.len() as int) =~= views);
}

} // verus!
