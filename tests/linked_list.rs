use aoclib::linked_list::{Iter, LinkedList};

#[test]
fn is_generic() {
    struct Foo;
    LinkedList::<Foo>::new();
}

#[test]
fn basics_empty_list() {
    let list: LinkedList<i32> = LinkedList::new();
    assert_eq!(list.len(), 0);
    assert!(list.is_empty());
}

#[test]
fn basics_single_element_back() {
    let mut list: LinkedList<i32> = LinkedList::new();
    list.push_back(5);

    assert_eq!(list.len(), 1);
    assert!(!list.is_empty());

    assert_eq!(list.pop_back(), Some(5));

    assert_eq!(list.len(), 0);
    assert!(list.is_empty());
}

#[test]
fn basics_push_pop_at_back() {
    let mut list: LinkedList<i32> = LinkedList::new();
    for i in 0..10 {
        list.push_back(i);
        assert_eq!(list.len(), i as usize + 1);
        assert!(!list.is_empty());
    }
    for i in (0..10).rev() {
        assert_eq!(list.len(), i as usize + 1);
        assert!(!list.is_empty());
        assert_eq!(i, list.pop_back().unwrap());
    }
    assert_eq!(list.len(), 0);
    assert!(list.is_empty());
}

#[test]
fn basics_single_element_front() {
    let mut list: LinkedList<i32> = LinkedList::new();
    list.push_front(5);

    assert_eq!(list.len(), 1);
    assert!(!list.is_empty());

    assert_eq!(list.pop_front(), Some(5));

    assert_eq!(list.len(), 0);
    assert!(list.is_empty());
}

#[test]
fn basics_push_pop_at_front() {
    let mut list: LinkedList<i32> = LinkedList::new();
    for i in 0..10 {
        list.push_front(i);
        assert_eq!(list.len(), i as usize + 1);
        assert!(!list.is_empty());
    }
    for i in (0..10).rev() {
        assert_eq!(list.len(), i as usize + 1);
        assert!(!list.is_empty());
        assert_eq!(i, list.pop_front().unwrap());
    }
    assert_eq!(list.len(), 0);
    assert!(list.is_empty());
}

#[test]
fn basics_push_front_pop_back() {
    let mut list: LinkedList<i32> = LinkedList::new();
    for i in 0..10 {
        list.push_front(i);
        assert_eq!(list.len(), i as usize + 1);
        assert!(!list.is_empty());
    }
    for i in 0..10 {
        assert_eq!(list.len(), 10 - i as usize);
        assert!(!list.is_empty());
        assert_eq!(i, list.pop_back().unwrap());
    }
    assert_eq!(list.len(), 0);
    assert!(list.is_empty());
}

#[test]
fn basics_push_back_pop_front() {
    let mut list: LinkedList<i32> = LinkedList::new();
    for i in 0..10 {
        list.push_back(i);
        assert_eq!(list.len(), i as usize + 1);
        assert!(!list.is_empty());
    }
    for i in 0..10 {
        assert_eq!(list.len(), 10 - i as usize);
        assert!(!list.is_empty());
        assert_eq!(i, list.pop_front().unwrap());
    }
    assert_eq!(list.len(), 0);
    assert!(list.is_empty());
}

#[test]
fn iter() {
    let mut list: LinkedList<i32> = LinkedList::new();
    for num in 0..10 {
        list.push_back(num);
    }

    let mut items = list.iter();
    for num in 0..10 {
        let entered_num = *items.next().unwrap();
        assert_eq!(num, entered_num);
    }
    assert!(items.next().is_none());
}

#[test]
fn drop_large_list() {
    drop(LinkedList::from_vec((0..2_000_000).collect::<Vec<i32>>()));
}

#[test]
fn advanced_linked_list_is_send_sync() {
    trait AssertSend: Send {}
    trait AssertSync: Sync {}

    impl<T: Send> AssertSend for LinkedList<T> {}
    impl<T: Sync> AssertSync for LinkedList<T> {}
}

#[allow(dead_code)]
#[test]
fn advanced_is_covariant() {
    fn a<'a>(x: LinkedList<&'static str>) -> LinkedList<&'a str> {
        x
    }

    fn a_iter<'a>(i: Iter<'static, &'static str>) -> Iter<'a, &'a str> {
        i
    }
}

#[test]
fn cursor_seeks_and_edits_in_place() {
    let mut list = LinkedList::from_vec((0..10).collect::<Vec<i32>>());
    {
        let mut cursor = list.cursor_front();
        assert_eq!(cursor.elem(), Some(&0));
        assert!(cursor.seek_forward(4));
        assert_eq!(cursor.elem(), Some(&4));
        if let Some(e) = cursor.elem_mut() {
            *e = 40;
        }
        assert!(cursor.seek_backward(4));
        assert_eq!(cursor.elem(), Some(&0));
        assert!(!cursor.seek_backward(1));
        assert_eq!(cursor.elem(), None);
    }
    assert_eq!(list.front(), Some(&0));
    assert_eq!(list.back(), Some(&9));
    let mut cursor = list.cursor_back();
    assert!(cursor.seek_backward(5));
    assert_eq!(cursor.elem(), Some(&40));
    assert!(!cursor.seek_forward(10));
}

fn items(list: &LinkedList<i32>) -> Vec<i32> {
    let mut out = Vec::new();
    let mut it = list.iter();
    while let Some(x) = it.next() {
        out.push(*x);
    }
    out
}

#[test]
fn cursor_insert_before_on_empty_list() {
    // insert_after on empty list is already tested via push_back()
    let mut list = LinkedList::new();
    list.cursor_front().insert_before(0);
    assert_eq!(Some(0), list.pop_front());
}

#[test]
fn cursor_insert_after_in_middle() {
    let mut list = LinkedList::from_vec((0..10).collect::<Vec<i32>>());

    {
        let mut cursor = list.cursor_front();
        let didnt_run_into_end = cursor.seek_forward(4);
        assert!(didnt_run_into_end);

        for n in (0..10).rev() {
            cursor.insert_after(n);
        }
    }

    assert_eq!(list.len(), 20);

    let expected: Vec<i32> = (0..5).chain(0..10).chain(5..10).collect();

    assert_eq!(expected, items(&list));
}

#[test]
fn cursor_insert_before_in_middle() {
    let mut list = LinkedList::from_vec((0..10).collect::<Vec<i32>>());

    {
        let mut cursor = list.cursor_back();
        let didnt_run_into_end = cursor.seek_backward(4);
        assert!(didnt_run_into_end);

        for n in 0..10 {
            cursor.insert_before(n);
        }
    }

    assert_eq!(list.len(), 20);

    let expected: Vec<i32> = (0..5).chain(0..10).chain(5..10).collect();

    assert_eq!(expected, items(&list));
}

// "iterates" via next() and checks that it visits the right elements
#[test]
fn cursor_next_and_peek() {
    let mut list = LinkedList::from_vec((0..10).collect::<Vec<i32>>());
    let mut cursor = list.cursor_front();

    assert_eq!(cursor.elem_mut(), Some(&mut 0));

    for n in 1..10 {
        let next = cursor.advance().cloned();
        assert_eq!(next, Some(n));
        assert_eq!(next, cursor.elem_mut().cloned());
    }
}

// "iterates" via prev() and checks that it visits the right elements
#[test]
fn cursor_prev_and_peek() {
    let mut list = LinkedList::from_vec((0..10).collect::<Vec<i32>>());
    let mut cursor = list.cursor_back();

    assert_eq!(cursor.elem_mut(), Some(&mut 9));

    for n in (0..9).rev() {
        let prev = cursor.retreat().cloned();
        assert_eq!(prev, Some(n));
        assert_eq!(prev, cursor.elem_mut().cloned());
    }
}

// removes all elements starting from the middle
#[test]
fn cursor_take() {
    let mut list = LinkedList::from_vec((0..10).collect::<Vec<i32>>());
    let mut cursor = list.cursor_front();
    cursor.seek_forward(5);

    for expected in (5..10).chain((0..5).rev()) {
        assert_eq!(cursor.take(), Some(expected));
    }
}

// checks number of drops
// may pass for incorrect programs if double frees happen
// exactly as often as destructor leaks
#[test]
fn drop_no_double_frees() {
    struct DropCounter<'a>(&'a std::cell::Cell<usize>);

    impl<'a> Drop for DropCounter<'a> {
        fn drop(&mut self) {
            let num = self.0.get();
            self.0.set(num + 1);
        }
    }

    const N: usize = 15;

    let counter = std::cell::Cell::new(0);
    let list = LinkedList::from_vec(
        std::iter::repeat_with(|| DropCounter(&counter))
            .take(N)
            .collect::<Vec<_>>(),
    );

    assert_eq!(list.len(), N);
    drop(list);
    assert_eq!(counter.get(), N);
}

#[test]
fn cursor_peeks_at_neighbours() {
    let mut list = LinkedList::from_vec(vec![1, 2, 3]);
    let mut cursor = list.cursor_front();
    assert_eq!(cursor.peek_prev(), None);
    assert_eq!(cursor.peek_next(), Some(&2));
    cursor.seek_forward(2);
    assert_eq!(cursor.peek_prev(), Some(&2));
    assert_eq!(cursor.peek_next(), None);
}
