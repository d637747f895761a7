use n2::concurrent_linked_list::ConcurrentLinkedList;

#[test]
fn iterates_newest_first() {
    let mut list = ConcurrentLinkedList::new();
    assert!(list.iter().is_empty());
    for n in 1..=4 {
        list.prepend(n);
    }
    let items: Vec<i32> = list.iter().into_iter().copied().collect();
    assert_eq!(items, vec![4, 3, 2, 1]);

    let copy = list.clone();
    let copied: Vec<i32> = copy.iter().into_iter().copied().collect();
    assert_eq!(copied, items);

    let empty: ConcurrentLinkedList<String> = Default::default();
    assert!(empty.iter().is_empty());
}
