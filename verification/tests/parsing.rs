use dynamite::attributes::Attributes;
use dynamite::number::{parse_scalar, NumberError};
use dynamite::parser::{parse_color, parse_styles};
use dynamite::scripting::{interpolate, render_template, render_texts_in_subtree, search_onupdate_functions};
use dynamite::styles::{parse_length, Scalar, Style};
use dynamite::text::{is_text, is_whitespace, split_words, strip_suffixes, to_lower, trim, trim_bounds};
use dynamite::vdom::{ElementNode, TextNode, VNode};

fn chars(s: &str) -> Vec<char> {
    s.chars().collect()
}

fn scalar(s: &str) -> Result<Scalar, NumberError> {
    parse_scalar(&chars(s))
}

fn map_of(pairs: &[(&str, &str)]) -> Attributes {
    let mut map = Attributes::new();
    for (k, v) in pairs {
        map.insert(k.to_string(), v.to_string());
    }
    map
}

#[test]
fn color_with_three_channels_is_opaque() {
    assert_eq!(parse_color("#1a2B3c"), Some([0x1a, 0x2b, 0x3c, 255]));
    assert_eq!(parse_color("#000000"), Some([0, 0, 0, 255]));
    assert_eq!(parse_color("#ffffff"), Some([255, 255, 255, 255]));
}

#[test]
fn color_with_four_channels() {
    assert_eq!(parse_color("#1a2b3c80"), Some([0x1a, 0x2b, 0x3c, 0x80]));
}

#[test]
fn color_channel_may_be_a_sign_and_a_digit() {
    assert_eq!(parse_color("#+f0102"), Some([15, 1, 2, 255]));
}

#[test]
fn color_is_rejected() {
    assert_eq!(parse_color("1a2b3c"), None);
    assert_eq!(parse_color(""), None);
    assert_eq!(parse_color("#"), None);
    assert_eq!(parse_color("#12345"), None);
    assert_eq!(parse_color("#1234567"), None);
    assert_eq!(parse_color("#123456789"), None);
    assert_eq!(parse_color("#12345g"), None);
    assert_eq!(parse_color("#-12345"), None);
    assert_eq!(parse_color("#1+2345"), None);
    assert_eq!(parse_color("#\u{e9}12345"), None);
}

#[test]
fn styles_are_split_at_semicolons_and_first_colons() {
    let styles = parse_styles(" width : 10px ;color:#fff; url: a:b ;; broken ; :empty-key");
    assert_eq!(styles.len(), 4);
    assert_eq!(styles.get("width"), Some(&"10px".to_string()));
    assert_eq!(styles.get("color"), Some(&"#fff".to_string()));
    assert_eq!(styles.get("url"), Some(&"a:b".to_string()));
    assert_eq!(styles.get(""), Some(&"empty-key".to_string()));
    assert_eq!(styles.get("broken"), None);
}

#[test]
fn later_declaration_wins() {
    let styles = parse_styles("a: 1; b: 2; a: 3");
    assert_eq!(styles.len(), 2);
    assert_eq!(styles.get("a"), Some(&"3".to_string()));
    assert_eq!(styles.key_at(0), "a");
    assert_eq!(styles.key_at(1), "b");
}

#[test]
fn empty_style_text_declares_nothing() {
    assert!(parse_styles("").is_empty());
    assert!(parse_styles(" ; ; ").is_empty());
}

#[test]
fn scalar_values() {
    assert_eq!(scalar("0"), Ok(Scalar { thousandths: 0 }));
    assert_eq!(scalar("10"), Ok(Scalar { thousandths: 10000 }));
    assert_eq!(scalar("10.5"), Ok(Scalar { thousandths: 10500 }));
    assert_eq!(scalar("1.2345"), Ok(Scalar { thousandths: 1234 }));
    assert_eq!(scalar("1.2"), Ok(Scalar { thousandths: 1200 }));
    assert_eq!(scalar(".5"), Ok(Scalar { thousandths: 500 }));
    assert_eq!(scalar("5."), Ok(Scalar { thousandths: 5000 }));
    assert_eq!(scalar("-2.75"), Ok(Scalar { thousandths: -2750 }));
    assert_eq!(scalar("+3"), Ok(Scalar { thousandths: 3000 }));
    assert_eq!(scalar("007"), Ok(Scalar { thousandths: 7000 }));
}

#[test]
fn scalar_limits() {
    assert_eq!(scalar("9223372036854775.807"), Ok(Scalar { thousandths: i64::MAX }));
    assert_eq!(scalar("-9223372036854775.807"), Ok(Scalar { thousandths: -i64::MAX }));
    assert_eq!(scalar("9223372036854775.808"), Err(NumberError::OutOfRange));
    assert_eq!(scalar("9223372036854776"), Err(NumberError::OutOfRange));
    assert_eq!(scalar("123456789012345678901234567890"), Err(NumberError::OutOfRange));
}

#[test]
fn scalar_is_malformed() {
    assert_eq!(scalar(""), Err(NumberError::Malformed));
    assert_eq!(scalar("."), Err(NumberError::Malformed));
    assert_eq!(scalar("-"), Err(NumberError::Malformed));
    assert_eq!(scalar("1.2.3"), Err(NumberError::Malformed));
    assert_eq!(scalar("12a"), Err(NumberError::Malformed));
    assert_eq!(scalar(" 1"), Err(NumberError::Malformed));
    assert_eq!(scalar("1e3"), Err(NumberError::Malformed));
    assert_eq!(scalar("--1"), Err(NumberError::Malformed));
}

#[test]
fn length_reads_the_number_at_the_start() {
    assert_eq!(parse_length(&chars("10px")), Ok(Scalar { thousandths: 10000 }));
    assert_eq!(parse_length(&chars("2.5em")), Ok(Scalar { thousandths: 2500 }));
    assert_eq!(parse_length(&chars("px")), Err(NumberError::Malformed));
    assert_eq!(parse_length(&chars("-1")), Err(NumberError::Malformed));
    assert_eq!(parse_length(&chars("1.2.3px")), Err(NumberError::Malformed));
}

#[test]
fn text_helpers() {
    assert_eq!(trim(&chars("  a b \t\n")), chars("a b"));
    assert_eq!(trim(&chars("\u{a0}x\u{3000}")), chars("x"));
    assert_eq!(trim(&chars("   ")), chars(""));
    assert_eq!(split_words(&chars("  one two\tthree ")), vec![chars("one"), chars("two"), chars("three")]);
    assert!(split_words(&chars(" \n ")).is_empty());
    assert_eq!(to_lower(&chars("AbC-\u{c9}z")), chars("abc-\u{c9}z"));
    assert_eq!(strip_suffixes(&chars("10pxpx"), &chars("px")), chars("10"));
    assert_eq!(strip_suffixes(&chars("10"), &chars("px")), chars("10"));
    assert_eq!(strip_suffixes(&chars("px"), &chars("")), chars("px"));
    assert!(is_whitespace(' ') && is_whitespace('\u{2003}') && !is_whitespace('a') && !is_whitespace('\u{200b}'));
    assert_eq!(trim_bounds(&chars("ab  cd  ef"), 2, 8), (4, 6));
    assert_eq!(trim_bounds(&chars("ab    ef"), 2, 6), (6, 6));
    assert!(is_text(&chars("row"), "row") && !is_text(&chars("row"), "rows") && !is_text(&chars("raw"), "row"));
}

#[test]
fn template_placeholders_give_way_to_values() {
    let values = map_of(&[("name", "Ada"), ("n", "3")]);
    assert_eq!(render_template("Hello {{ name }}, you have {{n}} messages", &values), "Hello Ada, you have 3 messages");
    assert_eq!(render_template("{{name}}{{name}}", &values), "AdaAda");
    assert_eq!(render_template("no placeholder", &values), "no placeholder");
    assert_eq!(render_template("", &values), "");
}

#[test]
fn unknown_placeholder_renders_to_nothing() {
    let values = map_of(&[("name", "Ada")]);
    assert_eq!(render_template("[{{ missing }}]", &values), "[]");
    assert_eq!(render_template("{{ not a name }}", &values), "{{ not a name }}");
}

#[test]
fn interpolate_interleaves_literals_and_values() {
    let values = map_of(&[("k", "V")]);
    let lits = vec!["a".to_string(), "b".to_string(), "c".to_string()];
    let k = Some("k".to_string());
    assert_eq!(interpolate(&lits, &vec![k.clone(), Some("x".to_string())], &values), "aVbc");
    assert_eq!(interpolate(&lits, &vec![None, k.clone()], &values), "abVc");
    assert_eq!(interpolate(&lits, &vec![], &values), "abc");
    assert_eq!(interpolate(&lits, &vec![k.clone(); 5], &values), "aVbVcV");
    assert_eq!(interpolate(&vec![], &vec![k], &values), "");
}

#[test]
fn texts_of_a_subtree_are_rendered() {
    let leaf = |id: u128, template: &str| {
        VNode::Text(TextNode {
            internal_id: id,
            id: None,
            attrs: Attributes::new(),
            style: Style::default(),
            template: template.to_string(),
            rendered: String::new(),
        })
    };
    let mut tree = VNode::Element(ElementNode {
        internal_id: 1,
        id: None,
        tag: "div".to_string(),
        attrs: Attributes::new(),
        style: Style::default(),
        children: vec![
            leaf(2, "{{a}}"),
            VNode::Element(ElementNode {
                internal_id: 3,
                id: None,
                tag: "p".to_string(),
                attrs: Attributes::new(),
                style: Style::default(),
                children: vec![leaf(4, "x{{b}}y")],
            }),
        ],
    });
    render_texts_in_subtree(&mut tree, &map_of(&[("a", "1"), ("b", "2")]));
    match &tree {
        VNode::Element(root) => {
            match &root.children[0] {
                VNode::Text(t) => {
                    assert_eq!(t.rendered, "1");
                    assert_eq!(t.template, "{{a}}");
                    assert_eq!(t.internal_id, 2);
                }
                _ => panic!("text expected"),
            }
            match &root.children[1] {
                VNode::Element(p) => match &p.children[0] {
                    VNode::Text(t) => assert_eq!(t.rendered, "x2y"),
                    _ => panic!("text expected"),
                },
                _ => panic!("element expected"),
            }
        }
        _ => panic!("element expected"),
    }
}

#[test]
fn hooks_are_the_calls_of_the_named_functions() {
    let root = VNode::Element(ElementNode {
        internal_id: 1,
        id: None,
        tag: "body".to_string(),
        attrs: map_of(&[("onupdate", "tick"), ("onload", "start")]),
        style: Style::default(),
        children: vec![],
    });
    let hooks = search_onupdate_functions(&root);
    assert_eq!(hooks.onupdate, Some("tick()".to_string()));
    assert_eq!(hooks.onload, Some("start()".to_string()));

    let bare = VNode::Element(ElementNode {
        internal_id: 1,
        id: None,
        tag: "body".to_string(),
        attrs: Attributes::new(),
        style: Style::default(),
        children: vec![],
    });
    let hooks = search_onupdate_functions(&bare);
    assert_eq!(hooks.onupdate, None);
    assert_eq!(hooks.onload, None);
}
