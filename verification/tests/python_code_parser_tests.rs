use code_harvester::extract_code_structures;
use code_harvester::parse_python_code;
use code_harvester::CodeStructure;

#[test]
fn test_parser_tokenize() {
    let input = "def foo():\n    return 42";
    let expected_tokens = vec!["def", "foo", "(", ")", ":", "return", "42"];

    let tokens = parse_python_code(input);
    assert_eq!(tokens, expected_tokens);
}

#[test]
fn test_read_python_file_and_parse() {
    let sample_source = "def foo():\n    return 42\n\nclass Bar:\n    def __init__(self, x):\n        self.x = x\n\n    def get_x(self):\n        return self.x\n";

    let expected_tokens = vec![
        "def", "foo", "(", ")", ":", "return", "42", "class", "Bar", ":", "def", "__init__",
        "(", "self", ",", "x", ")", ":", "self", ".", "x", "=", "x", "def", "get_x", "(",
        "self", ")", ":", "return", "self", ".", "x",
    ];

    let tokens = parse_python_code(sample_source);
    assert_eq!(tokens, expected_tokens);
}

#[test]
fn test_extract_code_structures() {
    let code = "def foo():\n    return 42\n\nclass Bar:\n    def __init__(self, x):\n        self.x = x\n\n    def get_x(self):\n        return self.x\n";
    let mut actual = extract_code_structures(code);
    let mut expected = vec![
        CodeStructure::Function("def foo():\n    return 42".to_string()),
        CodeStructure::Class("class Bar:\n    def __init__(self, x):\n        self.x = x\n\n    def get_x(self):\n        return self.x".to_string()),
    ];

    actual.sort_by(|x, y| x.partial_cmp(y).unwrap());
    expected.sort_by(|x, y| x.partial_cmp(y).unwrap());

    println!("Actual: {:?}", actual);
    println!("Expected: {:?}", expected);

    assert_eq!(actual, expected);
}

#[test]
fn test_extract_single_function() {
    let units = extract_code_structures("def foo():\n    return 42");
    assert_eq!(units.len(), 1);
    assert!(matches!(units[0], CodeStructure::Function(_)));
    assert_eq!(units[0].get_content(), "def foo():\n    return 42");
}

#[test]
fn test_extract_two_units_in_order() {
    let code = "def foo():\n    return 42\n\nclass Bar:\n    def __init__(self, x):\n        self.x = x\n\n    def get_x(self):\n        return self.x\n";
    let units = extract_code_structures(code);
    assert_eq!(units.len(), 2);
    assert_eq!(
        units[0],
        CodeStructure::Function("def foo():\n    return 42".to_string())
    );
    assert_eq!(
        units[1],
        CodeStructure::Class("class Bar:\n    def __init__(self, x):\n        self.x = x\n\n    def get_x(self):\n        return self.x".to_string())
    );
}

#[test]
fn test_unit_names_and_types() {
    let code = "def foo():\n    return 42\n\nclass Bar:\n    def __init__(self, x):\n        self.x = x\n";
    let units = extract_code_structures(code);
    assert_eq!(units.len(), 2);
    assert_eq!(units[0].get_name(), "foo");
    assert_eq!(units[0].get_type(), "function");
    assert_eq!(units[1].get_name(), "Bar");
    assert_eq!(units[1].get_type(), "class");
}

#[test]
fn test_adjacent_sibling_classes_split() {
    let code = "class A:\n    def m(self):\n        pass\nclass B:\n    def n(self):\n        pass";
    let units = extract_code_structures(code);
    assert_eq!(units.len(), 2);
    assert_eq!(
        units[0],
        CodeStructure::Class("class A:\n    def m(self):\n        pass".to_string())
    );
    assert_eq!(
        units[1],
        CodeStructure::Class("class B:\n    def n(self):\n        pass".to_string())
    );
}

#[test]
fn test_empty_input_yields_nothing() {
    assert_eq!(extract_code_structures("").len(), 0);
}

#[test]
fn test_headerless_input_yields_nothing() {
    assert_eq!(extract_code_structures("x = 1\ny = 2\n").len(), 0);
    assert_eq!(extract_code_structures("# class-like comment\n").len(), 0);
}

#[test]
fn test_kind_tagging() {
    let class_units = extract_code_structures("class Foo:\n    pass");
    assert!(matches!(class_units[0], CodeStructure::Class(_)));
    let def_units = extract_code_structures("def foo():\n    pass");
    assert!(matches!(def_units[0], CodeStructure::Function(_)));
}

#[test]
fn test_nested_method_stays_inside_class() {
    let code = "class Outer:\n    def method(self):\n        return 1\n";
    let units = extract_code_structures(code);
    assert_eq!(units.len(), 1);
    assert!(matches!(units[0], CodeStructure::Class(_)));
    assert!(units[0].get_content().contains("    def method(self):\n        return 1"));
}

#[test]
fn test_blank_line_kept_inside_block() {
    let code = "class C:\n    def a(self):\n        pass\n\n    def b(self):\n        pass\n";
    let units = extract_code_structures(code);
    assert_eq!(units.len(), 1);
    assert_eq!(
        units[0].get_content(),
        "class C:\n    def a(self):\n        pass\n\n    def b(self):\n        pass"
    );
}

#[test]
fn test_tokenizer_empty_input() {
    assert_eq!(parse_python_code(""), Vec::<String>::new());
    assert_eq!(parse_python_code("   \n\t"), Vec::<String>::new());
}

#[test]
fn test_units_order_by_text() {
    let c = CodeStructure::Class("class Bar:\n    pass".to_string());
    let f = CodeStructure::Function("def foo():\n    pass".to_string());
    assert_eq!(c.partial_cmp(&f), Some(std::cmp::Ordering::Less));
    assert_eq!(f.partial_cmp(&c), Some(std::cmp::Ordering::Greater));
    assert_eq!(c.partial_cmp(&c), Some(std::cmp::Ordering::Equal));
}

#[test]
fn test_from_code_string_tags_by_prefix() {
    let c = CodeStructure::from_code_string("class X:\n    pass");
    assert!(matches!(c, CodeStructure::Class(_)));
    assert_eq!(c.get_content(), "class X:\n    pass");
    let f = CodeStructure::from_code_string("def x():\n    pass");
    assert!(matches!(f, CodeStructure::Function(_)));
    assert_eq!(f.get_content(), "def x():\n    pass");
}
