use chekov::subscriber::Subscribers;

#[test]
fn subscribers_are_kept_per_stream_in_order() {
    let mut subs: Subscribers<u32> = Subscribers::new();
    assert!(subs.get("accounts").is_none());
    subs.add_sub("accounts", 1);
    subs.add_sub("orders", 7);
    subs.add_sub("accounts", 2);
    assert_eq!(subs.get("accounts"), Some(&vec![1, 2]));
    assert_eq!(subs.get("orders"), Some(&vec![7]));
    assert!(subs.get("account").is_none());
}
