use pool_bridge::dom::{set_element_inner_html_by_id, HtmlEncoded, PageModel};

#[test]
fn encoded_markup_is_carried_unchanged() {
    let html = HtmlEncoded::from_encoded("<b>safe&amp;sound</b>".to_string());
    assert_eq!(html.get_html(), "<b>safe&amp;sound</b>");
}

#[test]
fn adding_an_element_twice_is_refused() {
    let mut page = PageModel::new();
    assert!(page.add_element("greeting".to_string(), "old".to_string()));
    assert!(!page.add_element("greeting".to_string(), "other".to_string()));
    assert_eq!(page.inner_html_of("greeting"), Some(&"old".to_string()));
}

#[test]
fn setting_inner_html_replaces_only_that_element() {
    let mut page = PageModel::new();
    assert!(page.add_element("greeting".to_string(), "old".to_string()));
    assert!(page.add_element("footer".to_string(), "fine print".to_string()));
    let html = HtmlEncoded::from_encoded("<p>hello</p>".to_string());
    set_element_inner_html_by_id(&mut page, "greeting", &html);
    assert_eq!(page.inner_html_of("greeting"), Some(&"<p>hello</p>".to_string()));
    assert_eq!(page.inner_html_of("footer"), Some(&"fine print".to_string()));
    assert_eq!(page.inner_html_of("missing"), None);
}

#[test]
fn setting_twice_keeps_the_last_value() {
    let mut page = PageModel::new();
    assert!(page.add_element("status-line".to_string(), String::new()));
    let first = HtmlEncoded::from_encoded("one".to_string());
    let second = HtmlEncoded::from_encoded("two".to_string());
    set_element_inner_html_by_id(&mut page, "status-line", &first);
    set_element_inner_html_by_id(&mut page, "status-line", &second);
    assert_eq!(page.inner_html_of("status-line"), Some(&"two".to_string()));
}
