use rhei_server::page::Page;

fn numbers(n: u32) -> Vec<u32> {
    let mut v = Vec::new();
    for i in 0..n {
        v.push(i);
    }
    v
}

#[test]
fn create_keeps_items_and_size() {
    let p = Page::create(numbers(3), 2);
    assert_eq!(p.items, vec![0, 1, 2]);
    assert_eq!(p.size, 2);
}

#[test]
fn twenty_five_entries_page_size_ten() {
    let p = Page::create(numbers(25), 10);
    assert_eq!(p.nth(0), (0..10).collect::<Vec<u32>>());
    assert_eq!(p.nth(1), (10..20).collect::<Vec<u32>>());
    assert_eq!(p.nth(2), (20..25).collect::<Vec<u32>>());
    assert_eq!(p.nth(3), Vec::<u32>::new());
}

#[test]
fn pages_concatenate_to_input() {
    let p = Page::create(numbers(25), 4);
    let mut joined = Vec::new();
    let mut n = 0;
    loop {
        let w = p.nth(n);
        if w.is_empty() {
            break;
        }
        joined.extend(w);
        n += 1;
    }
    assert_eq!(joined, numbers(25));
}

#[test]
fn page_past_end_is_empty() {
    let p = Page::create(numbers(5), 5);
    assert_eq!(p.nth(1), Vec::<u32>::new());
    assert_eq!(p.nth(100), Vec::<u32>::new());
    assert_eq!(p.nth(usize::MAX), Vec::<u32>::new());
}

#[test]
fn exact_multiple_last_page() {
    let p = Page::create(numbers(20), 10);
    assert_eq!(p.nth(1), (10..20).collect::<Vec<u32>>());
    assert_eq!(p.nth(2), Vec::<u32>::new());
}

#[test]
fn zero_page_size_always_empty() {
    let p = Page::create(numbers(5), 0);
    assert_eq!(p.nth(0), Vec::<u32>::new());
    assert_eq!(p.nth(1), Vec::<u32>::new());
}

#[test]
fn empty_input_every_page_empty() {
    let p = Page::create(Vec::<u32>::new(), 3);
    assert_eq!(p.nth(0), Vec::<u32>::new());
    assert_eq!(p.nth(1), Vec::<u32>::new());
}
