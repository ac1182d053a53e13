use css_bundler::media::{MediaList, MediaQuery, Qualifier};
use css_bundler::printer::Printer;

fn query(qualifier: Option<Qualifier>, media_type: Option<&str>, conditions: &[&str]) -> MediaQuery {
    MediaQuery {
        qualifier,
        media_type: media_type.map(|t| t.to_string()),
        conditions: conditions.iter().map(|c| c.to_string()).collect(),
    }
}

fn list(queries: Vec<MediaQuery>) -> MediaList {
    MediaList { media_queries: queries }
}

fn print(list: &MediaList) -> String {
    let mut printer = Printer::new(false);
    list.to_css(&mut printer);
    printer.text().to_string()
}

fn both(a: Vec<MediaQuery>, b: Vec<MediaQuery>) -> Option<String> {
    let mut joined = list(a);
    match joined.and(&list(b)) {
        Ok(()) => Some(print(&joined)),
        Err(()) => None,
    }
}

#[test]
fn queries_are_joined_one_by_one() {
    assert_eq!(
        both(
            vec![query(None, Some("print"), &[]), query(None, None, &["(x)"])],
            vec![query(None, None, &["(color)"]), query(Some(Qualifier::Only), Some("print"), &[])],
        ),
        Some(
            "print and (color), only print, (x) and (color), only print and (x)".to_string()
        )
    );
}

#[test]
fn a_list_without_queries_matches_everything() {
    let print_only = || vec![query(None, Some("print"), &[])];
    assert_eq!(both(Vec::new(), print_only()), Some("print".to_string()));
    assert_eq!(both(print_only(), Vec::new()), Some("print".to_string()));
    assert_eq!(both(Vec::new(), Vec::new()), Some(String::new()));
    assert!(MediaList::new().is_empty());
    assert!(!list(print_only()).is_empty());
}

#[test]
fn media_types_that_differ_match_nothing() {
    assert_eq!(
        both(vec![query(None, Some("print"), &[])], vec![query(None, Some("screen"), &["(color)"])]),
        Some("not all".to_string())
    );
}

#[test]
fn negated_queries_are_joined_to_themselves_alone() {
    let not_print = || query(Some(Qualifier::Not), Some("print"), &[]);
    assert_eq!(both(vec![not_print()], vec![not_print()]), Some("not print".to_string()));
    assert_eq!(both(vec![not_print()], vec![query(None, Some("screen"), &[])]), None);
    assert_eq!(both(vec![query(None, None, &["(color)"])], vec![not_print()]), None);
    assert!(not_print().and(&query(None, None, &[])).is_none());
}

#[test]
fn conditions_are_not_repeated() {
    let a = query(None, None, &["(a)", "(b)"]);
    let joined = a.and(&query(None, Some("print"), &["(b)", "(c)"])).unwrap();
    assert_eq!(print(&list(vec![joined])), "print and (a) and (b) and (c)");
}

#[test]
fn or_adds_the_queries_that_are_missing() {
    let mut a = list(vec![query(None, Some("print"), &[]), query(None, None, &["(x)"])]);
    a.or(&list(vec![query(None, None, &["(x)"]), query(None, Some("screen"), &[])]));
    assert_eq!(print(&a), "print, (x), screen");
    let copy = a.clone();
    assert!(copy == a);
    a.or(&copy);
    assert!(copy == a);
    a.or(&list(vec![query(None, Some("tv"), &[])]));
    assert!(copy != a);
}
