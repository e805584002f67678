use reduction_server::address::split_addresses;

#[test]
fn one_address_is_itself() {
    assert_eq!(split_addresses("127.0.0.1:8080"), vec!["127.0.0.1:8080"]);
}

#[test]
fn addresses_are_split_at_commas() {
    assert_eq!(split_addresses("a:1,b:2,c:3"), vec!["a:1", "b:2", "c:3"]);
}

#[test]
fn empty_parts_are_kept() {
    assert_eq!(split_addresses(""), vec![""]);
    assert_eq!(split_addresses(","), vec!["", ""]);
    assert_eq!(split_addresses(",a,,b,"), vec!["", "a", "", "b", ""]);
}

#[test]
fn split_agrees_with_the_standard_library() {
    for list in ["", "x", "\u{e4},\u{1F600},z", "host:1,host:2"] {
        let parts: Vec<String> = list.split(',').map(String::from).collect();
        assert_eq!(split_addresses(list), parts);
        assert_eq!(split_addresses(list).join(","), list);
    }
}
